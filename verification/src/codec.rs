//! The executable payload codec.
//!
//! [`decode`] parses a request body into a validated [`KeywordSet`] and is
//! proved to agree exactly with the grammar's [`spec_decode`]; [`encode`]
//! produces the canonical stored form and agrees with [`spec_encode`].

use vstd::prelude::*;
use crate::keywords::{KeywordSet, KwModel, upsert_model};
use crate::grammar::{
    is_json_ws, skip_ws, hex_val, hex_char, parse_string_body, parse_string, parse_array_items,
    parse_array, parse_members, fold_upserts, spec_decode, encode_char,
    encode_string_body, encode_string, encode_strings, encode_array, encode_pair, encode_pairs,
    spec_encode,
};

verus! {

/// Why a request body was rejected.
#[derive(Debug)]
pub struct DecodeError {
    /// Human-readable detail of the parse failure.
    pub message: String,
}

/// Relies on char::from_u32: Some exactly on Unicode scalar values, giving
/// the character with that value.
pub assume_specification[ char::from_u32 ](v: u32) -> (r: Option<char>)
    ensures
        r is Some <==> (v < 0xD800 || (0xE000 <= v && v <= 0x10FFFF)),
        r matches Some(c) ==> c as u32 == v,
;

/// Relies on Iterator::collect for String from chars: the string holds
/// exactly the given characters.
#[verifier::external_body]
fn chars_to_string(v: Vec<char>) -> (r: String)
    ensures
        r@ == v@,
{
    v.into_iter().collect()
}

/// A character value is a Unicode scalar and casts to and from its code
/// point exactly.
proof fn lemma_char_val(c: char)
    ensures
        0 <= c as int <= 0x10FFFF,
        !(0xD800 <= c as int <= 0xDFFF),
        c as u32 as int == c as int,
        ((c as int) as char) == c,
{
    vstd::utf8::char_is_scalar(c);
    vstd::utf8::char_u32_cast(c, c as u32);
}

/// The characters of a string slice, in order.
pub fn str_chars(s: &str) -> (v: Vec<char>)
    ensures
        v@ == s@,
{
    let n = s.unicode_len();
    let mut v: Vec<char> = Vec::new();
    let mut i: usize = 0;
    while i < n
        invariant
            i <= n,
            n == s@.len(),
            v@ == s@.subrange(0, i as int),
        decreases n - i,
    {
        let c = s.get_char(i);
        v.push(c);
        proof {
            assert(v@ =~= s@.subrange(0, i + 1 as int));
        }
        i += 1;
    }
    proof {
        assert(s@.subrange(0, n as int) =~= s@);
    }
    v
}

/// Whether `c` is JSON whitespace.
fn ws_char(c: char) -> (r: bool)
    ensures
        r == is_json_ws(c),
{
    c == ' ' || c == '\t' || c == '\n' || c == '\r'
}

/// First index at or after `i` holding a non-whitespace character.
fn e_skip_ws(s: &Vec<char>, i: usize) -> (r: usize)
    requires
        i <= s.len(),
    ensures
        r as int == skip_ws(s@, i as int),
        i <= r <= s.len(),
{
    let mut j = i;
    loop
        invariant
            i <= j <= s.len(),
            skip_ws(s@, i as int) == skip_ws(s@, j as int),
        decreases s.len() - j,
    {
        if j == s.len() {
            return j;
        }
        if !ws_char(s[j]) {
            return j;
        }
        j += 1;
    }
}

/// Value of a hexadecimal digit, or -1.
fn e_hex_val(c: char) -> (r: i32)
    ensures
        r as int == hex_val(c),
{
    proof {
        lemma_char_val(c);
    }
    let u = c as u32;
    if u >= '0' as u32 && u <= '9' as u32 {
        (u - '0' as u32) as i32
    } else if u >= 'a' as u32 && u <= 'f' as u32 {
        (u - 'a' as u32) as i32 + 10
    } else if u >= 'A' as u32 && u <= 'F' as u32 {
        (u - 'A' as u32) as i32 + 10
    } else {
        -1
    }
}

/// Parses a JSON string literal whose opening quote stands at `i`.
fn e_parse_string(s: &Vec<char>, i: usize) -> (r: Option<(Vec<char>, usize)>)
    requires
        i <= s.len(),
    ensures
        match r {
            Some(p) => {
                &&& parse_string(s@, i as int) == Some((p.0@, p.1 as int))
                &&& i < p.1 <= s.len()
            },
            None => parse_string(s@, i as int) is None,
        },
{
    if i == s.len() || s[i] != '"' {
        return None;
    }
    let mut acc: Vec<char> = Vec::new();
    let mut j = i + 1;
    loop
        invariant
            i + 1 <= j <= s.len(),
            i < s.len(),
            s@[i as int] == '"',
            parse_string(s@, i as int) == parse_string_body(s@, j as int, acc@),
        decreases s.len() - j,
    {
        if j == s.len() {
            return None;
        }
        let c = s[j];
        if c == '"' {
            return Some((acc, j + 1));
        }
        if c == '\\' {
            if j + 1 == s.len() {
                return None;
            }
            let e = s[j + 1];
            if e == '"' { acc.push('"'); j += 2; }
            else if e == '\\' { acc.push('\\'); j += 2; }
            else if e == '/' { acc.push('/'); j += 2; }
            else if e == 'b' { acc.push('\u{0008}'); j += 2; }
            else if e == 'f' { acc.push('\u{000C}'); j += 2; }
            else if e == 'n' { acc.push('\n'); j += 2; }
            else if e == 'r' { acc.push('\r'); j += 2; }
            else if e == 't' { acc.push('\t'); j += 2; }
            else if e == 'u' {
                if s.len() - j < 6 {
                    return None;
                }
                let h1 = e_hex_val(s[j + 2]);
                let h2 = e_hex_val(s[j + 3]);
                let h3 = e_hex_val(s[j + 4]);
                let h4 = e_hex_val(s[j + 5]);
                if h1 < 0 || h2 < 0 || h3 < 0 || h4 < 0 {
                    return None;
                }
                let u: u32 = (h1 as u32) * 4096 + (h2 as u32) * 256 + (h3 as u32) * 16
                    + (h4 as u32);
                if u >= 0xD800 && u < 0xE000 {
                    return None;
                }
                match char::from_u32(u) {
                    Some(ch) => {
                        proof {
                            lemma_char_val(ch);
                            assert((u as int) as char == ch);
                        }
                        acc.push(ch);
                        j += 6;
                    },
                    None => {
                        proof {
                            assert(false);
                        }
                        return None;
                    },
                }
            } else {
                return None;
            }
        } else if (c as u32) < 0x20 {
            proof {
                lemma_char_val(c);
            }
            return None;
        } else {
            proof {
                lemma_char_val(c);
            }
            acc.push(c);
            j += 1;
        }
    }
}

/// `r` with `pre` put before the parsed items.
pub open spec fn prepend_items(pre: Seq<Seq<char>>, r: Option<(Seq<Seq<char>>, int)>) -> Option<
    (Seq<Seq<char>>, int),
> {
    match r {
        Some(p) => Some((pre.add(p.0), p.1)),
        None => None,
    }
}

/// Parses a string array whose opening bracket stands at `i`.
fn e_parse_array(s: &Vec<char>, i: usize) -> (r: Option<(Vec<String>, usize)>)
    requires
        i <= s.len(),
    ensures
        match r {
            Some(p) => {
                &&& parse_array(s@, i as int) == Some((p.0.deep_view(), p.1 as int))
                &&& i < p.1 <= s.len()
            },
            None => parse_array(s@, i as int) is None,
        },
{
    if i == s.len() || s[i] != '[' {
        return None;
    }
    let j = e_skip_ws(s, i + 1);
    if j < s.len() && s[j] == ']' {
        let out: Vec<String> = Vec::new();
        proof {
            assert(out.deep_view() =~= Seq::<Seq<char>>::empty());
        }
        return Some((out, j + 1));
    }
    let mut out: Vec<String> = Vec::new();
    let mut cur = i + 1;
    proof {
        assert(out.deep_view() =~= Seq::<Seq<char>>::empty());
        assert(prepend_items(out.deep_view(), parse_array_items(s@, cur as int))
            =~= parse_array_items(s@, cur as int));
    }
    loop
        invariant
            i + 1 <= cur <= s.len(),
            parse_array(s@, i as int) == prepend_items(
                out.deep_view(),
                parse_array_items(s@, cur as int),
            ),
        decreases s.len() - cur,
    {
        let j2 = e_skip_ws(s, cur);
        let parsed = e_parse_string(s, j2);
        match parsed {
            None => {
                return None;
            },
            Some(p) => {
                let (v, k) = p;
                let l = e_skip_ws(s, k);
                let ghost old_out = out.deep_view();
                if l < s.len() && s[l] == ',' {
                    out.push(chars_to_string(v));
                    proof {
                        assert(out.deep_view() =~= old_out.push(v@));
                        if parse_array_items(s@, l + 1 as int) is Some {
                            let rest = parse_array_items(s@, l + 1 as int)->Some_0.0;
                            assert(old_out.add(seq![v@].add(rest)) =~= out.deep_view().add(rest));
                        }
                    }
                    cur = l + 1;
                } else if l < s.len() && s[l] == ']' {
                    out.push(chars_to_string(v));
                    proof {
                        assert(out.deep_view() =~= old_out.push(v@));
                        assert(old_out.add(seq![v@]) =~= out.deep_view());
                    }
                    return Some((out, l + 1));
                } else {
                    return None;
                }
            },
        }
    }
}

/// `r` with `pre` put before the parsed members.
pub open spec fn prepend_members(pre: KwModel, r: Option<(KwModel, int)>) -> Option<
    (KwModel, int),
> {
    match r {
        Some(p) => Some((pre.add(p.0), p.1)),
        None => None,
    }
}

/// Folding one more member folds the set built so far once more.
proof fn lemma_fold_snoc(acc: KwModel, ps: KwModel, p: (Seq<char>, Seq<Seq<char>>))
    ensures
        fold_upserts(acc, ps.push(p)) == upsert_model(fold_upserts(acc, ps), p.0, p.1),
    decreases ps.len(),
{
    if ps.len() == 0 {
        assert(ps.push(p)[0] == p);
        assert(ps.push(p).drop_first() =~= Seq::<(Seq<char>, Seq<Seq<char>>)>::empty());
        assert(fold_upserts(acc, ps.push(p)) == fold_upserts(
            upsert_model(acc, p.0, p.1),
            ps.push(p).drop_first(),
        ));
        assert(fold_upserts(upsert_model(acc, p.0, p.1), ps.push(p).drop_first())
            == upsert_model(acc, p.0, p.1));
        assert(fold_upserts(acc, ps) == acc);
    } else {
        let acc1 = upsert_model(acc, ps[0].0, ps[0].1);
        assert(ps.push(p)[0] == ps[0]);
        assert(ps.push(p).drop_first() =~= ps.drop_first().push(p));
        assert(fold_upserts(acc, ps.push(p)) == fold_upserts(acc1, ps.push(p).drop_first()));
        lemma_fold_snoc(acc1, ps.drop_first(), p);
        assert(fold_upserts(acc, ps) == fold_upserts(acc1, ps.drop_first()));
    }
}

/// Parses the members of a non-empty object, folding them into a keyword
/// set as they come.
fn e_parse_members(s: &Vec<char>, i: usize) -> (r: Option<(KeywordSet, usize)>)
    requires
        i <= s.len(),
    ensures
        match r {
            Some(p) => {
                &&& parse_members(s@, i as int) is Some
                &&& parse_members(s@, i as int)->Some_0.1 == p.1 as int
                &&& p.0@ == fold_upserts(Seq::empty(), parse_members(s@, i as int)->Some_0.0)
                &&& p.0.wf()
                &&& i < p.1 <= s.len()
            },
            None => parse_members(s@, i as int) is None,
        },
{
    let mut ks = KeywordSet::new();
    let ghost mut done: KwModel = Seq::empty();
    let mut cur = i;
    proof {
        assert(prepend_members(done, parse_members(s@, cur as int))
            =~= parse_members(s@, cur as int));
    }
    loop
        invariant
            i <= cur <= s.len(),
            parse_members(s@, i as int) == prepend_members(
                done,
                parse_members(s@, cur as int),
            ),
            ks@ == fold_upserts(Seq::empty(), done),
            ks.wf(),
        decreases s.len() - cur,
    {
        let j = e_skip_ws(s, cur);
        let parsed = e_parse_string(s, j);
        match parsed {
            None => {
                return None;
            },
            Some(p) => {
                let (kchars, a) = p;
                let b = e_skip_ws(s, a);
                if !(b < s.len() && s[b] == ':') {
                    return None;
                }
                let c = e_skip_ws(s, b + 1);
                let arr = e_parse_array(s, c);
                match arr {
                    None => {
                        return None;
                    },
                    Some(q) => {
                        let (vals, d) = q;
                        let e2 = e_skip_ws(s, d);
                        let ghost pair = (kchars@, vals.deep_view());
                        let ghost done0 = done;
                        if e2 < s.len() && s[e2] == ',' {
                            ks.upsert(chars_to_string(kchars), vals);
                            proof {
                                done = done0.push(pair);
                                lemma_fold_snoc(Seq::empty(), done0, pair);
                                if parse_members(s@, e2 + 1 as int) is Some {
                                    let rest = parse_members(s@, e2 + 1 as int)->Some_0.0;
                                    assert(done0.add(seq![pair].add(rest)) =~= done.add(rest));
                                }
                            }
                            cur = e2 + 1;
                        } else if e2 < s.len() && s[e2] == '}' {
                            ks.upsert(chars_to_string(kchars), vals);
                            proof {
                                lemma_fold_snoc(Seq::empty(), done0, pair);
                                assert(done0.add(seq![pair]) =~= done0.push(pair));
                            }
                            return Some((ks, e2 + 1));
                        } else {
                            return None;
                        }
                    },
                }
            },
        }
    }
}

fn mk_error(detail: &str) -> (r: DecodeError)
    ensures
        r.message@ == detail@,
{
    DecodeError { message: String::from_str(detail) }
}

/// Decodes a request body: accepts exactly the JSON objects whose every
/// member value is an array of strings, and returns the keyword set they
/// describe, later writers winning on a repeated key.
pub fn decode(s: &str) -> (r: Result<KeywordSet, DecodeError>)
    ensures
        match r {
            Ok(k) => spec_decode(s@) == Some(k@) && k.wf(),
            Err(e) => spec_decode(s@) is None && e.message@.len() > 0,
        },
{
    proof {
        reveal_strlit("expected a JSON object");
        reveal_strlit("unexpected text after the object");
        reveal_strlit("expected string-array members in the object");
    }
    let v = str_chars(s);
    let i = e_skip_ws(&v, 0);
    if !(i < v.len() && v[i] == '{') {
        return Err(mk_error("expected a JSON object"));
    }
    let j = e_skip_ws(&v, i + 1);
    if j < v.len() && v[j] == '}' {
        let e = e_skip_ws(&v, j + 1);
        if e == v.len() {
            let ks = KeywordSet::new();
            return Ok(ks);
        }
        return Err(mk_error("unexpected text after the object"));
    }
    let parsed = e_parse_members(&v, i + 1);
    match parsed {
        None => Err(mk_error("expected string-array members in the object")),
        Some(p) => {
            let (ks, e2) = p;
            let e = e_skip_ws(&v, e2);
            if e == v.len() {
                Ok(ks)
            } else {
                Err(mk_error("unexpected text after the object"))
            }
        },
    }
}

/// Encoding one more character extends the encoded body at its end.
proof fn lemma_body_snoc(t: Seq<char>, c: char)
    ensures
        encode_string_body(t.push(c)) == encode_string_body(t).add(encode_char(c)),
    decreases t.len(),
{
    if t.len() == 0 {
        assert(t.push(c)[0] == c);
        assert(t.push(c).drop_first() =~= Seq::<char>::empty());
        assert(encode_string_body(Seq::<char>::empty()) == Seq::<char>::empty());
        assert(encode_char(c).add(Seq::<char>::empty()) =~= encode_char(c));
        assert(encode_string_body(t).add(encode_char(c)) =~= encode_char(c));
    } else {
        assert(t.push(c)[0] == t[0]);
        assert(t.push(c).drop_first() =~= t.drop_first().push(c));
        lemma_body_snoc(t.drop_first(), c);
        assert(encode_string_body(t.push(c)) == encode_char(t[0]).add(
            encode_string_body(t.drop_first()).add(encode_char(c)),
        ));
        assert(encode_char(t[0]).add(encode_string_body(t.drop_first()).add(encode_char(c)))
            =~= encode_char(t[0]).add(encode_string_body(t.drop_first())).add(encode_char(c)));
    }
}

/// Encoding one more array element extends the encoded list at its end.
proof fn lemma_strings_snoc(vs: Seq<Seq<char>>)
    requires
        vs.len() >= 2,
    ensures
        encode_strings(vs) == encode_strings(vs.drop_last()).add(seq![',']).add(
            encode_string(vs.last()),
        ),
    decreases vs.len(),
{
    if vs.len() == 2 {
        assert(vs.drop_first() =~= seq![vs[1]]);
        assert(vs.drop_last() =~= seq![vs[0]]);
        assert(encode_strings(seq![vs[1]]) == encode_string(vs[1]));
        assert(encode_strings(seq![vs[0]]) == encode_string(vs[0]));
        assert(encode_strings(vs) =~= encode_strings(vs.drop_last()).add(seq![',']).add(
            encode_string(vs.last()),
        ));
    } else {
        lemma_strings_snoc(vs.drop_first());
        assert(vs.drop_first().drop_last() =~= vs.drop_last().drop_first());
        assert(vs.drop_first().last() == vs.last());
        assert(vs.drop_last()[0] == vs[0]);
        assert(encode_strings(vs.drop_last()) == encode_string(vs[0]).add(seq![',']).add(
            encode_strings(vs.drop_last().drop_first()),
        ));
        assert(encode_strings(vs) =~= encode_strings(vs.drop_last()).add(seq![',']).add(
            encode_string(vs.last()),
        ));
    }
}

/// Encoding one more member extends the encoded object at its end.
proof fn lemma_pairs_snoc(m: KwModel)
    requires
        m.len() >= 2,
    ensures
        encode_pairs(m) == encode_pairs(m.drop_last()).add(seq![',']).add(encode_pair(m.last())),
    decreases m.len(),
{
    if m.len() == 2 {
        assert(m.drop_first() =~= seq![m[1]]);
        assert(m.drop_last() =~= seq![m[0]]);
        assert(encode_pairs(seq![m[1]]) == encode_pair(m[1]));
        assert(encode_pairs(seq![m[0]]) == encode_pair(m[0]));
        assert(encode_pairs(m) =~= encode_pairs(m.drop_last()).add(seq![',']).add(
            encode_pair(m.last()),
        ));
    } else {
        lemma_pairs_snoc(m.drop_first());
        assert(m.drop_first().drop_last() =~= m.drop_last().drop_first());
        assert(m.drop_first().last() == m.last());
        assert(m.drop_last()[0] == m[0]);
        assert(encode_pairs(m.drop_last()) == encode_pair(m[0]).add(seq![',']).add(
            encode_pairs(m.drop_last().drop_first()),
        ));
        assert(encode_pairs(m) =~= encode_pairs(m.drop_last()).add(seq![',']).add(
            encode_pair(m.last()),
        ));
    }
}

/// Lower-case hexadecimal digit for a value in 0..16.
fn hex_digit(d: u32) -> (r: char)
    requires
        d < 16,
    ensures
        r == hex_char(d as int),
{
    if d == 0 { '0' }
    else if d == 1 { '1' }
    else if d == 2 { '2' }
    else if d == 3 { '3' }
    else if d == 4 { '4' }
    else if d == 5 { '5' }
    else if d == 6 { '6' }
    else if d == 7 { '7' }
    else if d == 8 { '8' }
    else if d == 9 { '9' }
    else if d == 10 { 'a' }
    else if d == 11 { 'b' }
    else if d == 12 { 'c' }
    else if d == 13 { 'd' }
    else if d == 14 { 'e' }
    else { 'f' }
}

/// Appends the canonical encoding of one string character.
fn push_encoded_char(v: Vec<char>, c: char) -> (r: Vec<char>)
    ensures
        r@ == v@.add(encode_char(c)),
{
    let ghost v0 = v@;
    let mut v = v;
    if c == '"' {
        v.push('\\');
        v.push('"');
    } else if c == '\\' {
        v.push('\\');
        v.push('\\');
    } else {
        proof {
            lemma_char_val(c);
        }
        let u = c as u32;
        if u < 0x10 {
            v.push('\\');
            v.push('u');
            v.push('0');
            v.push('0');
            v.push('0');
            v.push(hex_digit(u));
        } else if u < 0x20 {
            v.push('\\');
            v.push('u');
            v.push('0');
            v.push('0');
            v.push('1');
            v.push(hex_digit(u - 0x10));
        } else {
            v.push(c);
        }
    }
    proof {
        assert(v@ =~= v0.add(encode_char(c)));
    }
    v
}

/// Appends the canonical encoding of a string literal, quotes included.
fn push_encoded_string(v: Vec<char>, t: &str) -> (r: Vec<char>)
    ensures
        r@ == v@.add(encode_string(t@)),
{
    let ghost v0 = v@;
    let mut v = v;
    v.push('"');
    let n = t.unicode_len();
    let mut j: usize = 0;
    while j < n
        invariant
            j <= n,
            n == t@.len(),
            v@ == v0.push('"').add(encode_string_body(t@.take(j as int))),
        decreases n - j,
    {
        let c = t.get_char(j);
        v = push_encoded_char(v, c);
        proof {
            assert(t@.take(j + 1 as int) =~= t@.take(j as int).push(t@[j as int]));
            lemma_body_snoc(t@.take(j as int), t@[j as int]);
            assert(v@ =~= v0.push('"').add(encode_string_body(t@.take(j + 1 as int))));
        }
        j += 1;
    }
    v.push('"');
    proof {
        assert(t@.take(n as int) =~= t@);
        assert(v@ =~= v0.add(encode_string(t@)));
    }
    v
}

/// Appends the canonical encoding of a string array, brackets included.
fn push_encoded_array(v: Vec<char>, vs: &Vec<String>) -> (r: Vec<char>)
    ensures
        r@ == v@.add(encode_array(vs.deep_view())),
{
    let ghost v0 = v@;
    let ghost dv = vs.deep_view();
    let mut v = v;
    v.push('[');
    let mut j: usize = 0;
    while j < vs.len()
        invariant
            j <= vs.len(),
            dv == vs.deep_view(),
            dv.len() == vs.len(),
            v@ == v0.push('[').add(encode_strings(dv.take(j as int))),
        decreases vs.len() - j,
    {
        if j > 0 {
            v.push(',');
        }
        v = push_encoded_string(v, vs[j].as_str());
        proof {
            assert(dv[j as int] == vs@[j as int]@);
            assert(dv.take(j + 1 as int) =~= dv.take(j as int).push(dv[j as int]));
            if j == 0 {
                assert(encode_strings(dv.take(1)) == encode_string(dv[0]));
            } else {
                lemma_strings_snoc(dv.take(j + 1 as int));
                assert(dv.take(j + 1 as int).drop_last() =~= dv.take(j as int));
                assert(dv.take(j + 1 as int).last() == dv[j as int]);
            }
            assert(v@ =~= v0.push('[').add(encode_strings(dv.take(j + 1 as int))));
        }
        j += 1;
    }
    v.push(']');
    proof {
        assert(dv.take(dv.len() as int) =~= dv);
        assert(v@ =~= v0.add(encode_array(dv)));
    }
    v
}

/// Encodes a keyword set into its canonical stored form.
pub fn encode(k: &KeywordSet) -> (r: String)
    ensures
        r@ == spec_encode(k@),
{
    let es = k.entries();
    let ghost m = k@;
    let mut v: Vec<char> = Vec::new();
    v.push('{');
    let mut j: usize = 0;
    while j < es.len()
        invariant
            j <= es.len(),
            es.deep_view() == m,
            m.len() == es.len(),
            v@ == seq!['{'].add(encode_pairs(m.take(j as int))),
        decreases es.len() - j,
    {
        if j > 0 {
            v.push(',');
        }
        v = push_encoded_string(v, es[j].0.as_str());
        v.push(':');
        v = push_encoded_array(v, &es[j].1);
        proof {
            assert(m[j as int] == es@[j as int].deep_view());
            assert(m[j as int].0 == es@[j as int].0@);
            assert(m[j as int].1 == es@[j as int].1.deep_view());
            assert(m.take(j + 1 as int) =~= m.take(j as int).push(m[j as int]));
            if j == 0 {
                assert(encode_pairs(m.take(1)) == encode_pair(m[0]));
            } else {
                lemma_pairs_snoc(m.take(j + 1 as int));
                assert(m.take(j + 1 as int).drop_last() =~= m.take(j as int));
                assert(m.take(j + 1 as int).last() == m[j as int]);
            }
            assert(v@ =~= seq!['{'].add(encode_pairs(m.take(j + 1 as int))));
        }
        j += 1;
    }
    v.push('}');
    proof {
        assert(m.take(m.len() as int) =~= m);
        assert(v@ =~= spec_encode(m));
    }
    chars_to_string(v)
}

} // verus!
