//! The wire format of a keyword set, as a mathematical grammar.
//!
//! A stored record is a JSON object whose every member value is an array of
//! strings. This module defines the grammar as specification functions: a
//! recursive-descent parser over character sequences ([`parse_text`]), the
//! canonical encoder ([`spec_encode`]), and the bounds lemmas about them.
//! The executable codec is proved against these functions.

use vstd::prelude::*;
use crate::keywords::{KwModel, upsert_model};

verus! {

/// JSON insignificant whitespace.
pub open spec fn is_json_ws(c: char) -> bool {
    c == ' ' || c == '\t' || c == '\n' || c == '\r'
}

/// First index at or after `i` holding a non-whitespace character.
pub open spec fn skip_ws(s: Seq<char>, i: int) -> int
    decreases s.len() - i,
{
    if 0 <= i < s.len() && is_json_ws(s[i]) {
        skip_ws(s, i + 1)
    } else {
        i
    }
}

pub proof fn lemma_skip_ws_bounds(s: Seq<char>, i: int)
    requires
        0 <= i <= s.len(),
    ensures
        i <= skip_ws(s, i) <= s.len(),
        skip_ws(s, i) < s.len() ==> !is_json_ws(s[skip_ws(s, i)]),
    decreases s.len() - i,
{
    if i < s.len() && is_json_ws(s[i]) {
        lemma_skip_ws_bounds(s, i + 1);
    }
}

/// Value of a hexadecimal digit, or -1.
pub open spec fn hex_val(c: char) -> int {
    let u = c as int;
    if '0' as int <= u && u <= '9' as int {
        u - '0' as int
    } else if 'a' as int <= u && u <= 'f' as int {
        u - 'a' as int + 10
    } else if 'A' as int <= u && u <= 'F' as int {
        u - 'A' as int + 10
    } else {
        -1
    }
}

pub open spec fn is_hex(c: char) -> bool {
    hex_val(c) >= 0
}

/// Lower-case hexadecimal digit for a value in 0..16.
pub open spec fn hex_char(d: int) -> char {
    if d == 0 { '0' }
    else if d == 1 { '1' }
    else if d == 2 { '2' }
    else if d == 3 { '3' }
    else if d == 4 { '4' }
    else if d == 5 { '5' }
    else if d == 6 { '6' }
    else if d == 7 { '7' }
    else if d == 8 { '8' }
    else if d == 9 { '9' }
    else if d == 10 { 'a' }
    else if d == 11 { 'b' }
    else if d == 12 { 'c' }
    else if d == 13 { 'd' }
    else if d == 14 { 'e' }
    else if d == 15 { 'f' }
    else { '0' }
}

pub proof fn lemma_hex_char_val(d: int)
    requires
        0 <= d < 16,
    ensures
        hex_val(hex_char(d)) == d,
{
}

/// Parses the remainder of a JSON string after the opening quote, starting
/// at `i`, with `acc` the characters read so far. Returns the decoded
/// characters and the index just past the closing quote.
pub open spec fn parse_string_body(s: Seq<char>, i: int, acc: Seq<char>) -> Option<(Seq<char>, int)>
    decreases s.len() - i,
{
    if !(0 <= i < s.len()) {
        None
    } else if s[i] == '"' {
        Some((acc, i + 1))
    } else if s[i] == '\\' {
        if i + 1 < s.len() {
            let e = s[i + 1];
            if e == '"' { parse_string_body(s, i + 2, acc.push('"')) }
            else if e == '\\' { parse_string_body(s, i + 2, acc.push('\\')) }
            else if e == '/' { parse_string_body(s, i + 2, acc.push('/')) }
            else if e == 'b' { parse_string_body(s, i + 2, acc.push('\u{0008}')) }
            else if e == 'f' { parse_string_body(s, i + 2, acc.push('\u{000C}')) }
            else if e == 'n' { parse_string_body(s, i + 2, acc.push('\n')) }
            else if e == 'r' { parse_string_body(s, i + 2, acc.push('\r')) }
            else if e == 't' { parse_string_body(s, i + 2, acc.push('\t')) }
            else if e == 'u' {
                if i + 6 <= s.len() && is_hex(s[i + 2]) && is_hex(s[i + 3]) && is_hex(s[i + 4])
                    && is_hex(s[i + 5]) {
                    let u = hex_val(s[i + 2]) * 4096 + hex_val(s[i + 3]) * 256
                        + hex_val(s[i + 4]) * 16 + hex_val(s[i + 5]);
                    if u < 0xD800 || u >= 0xE000 {
                        parse_string_body(s, i + 6, acc.push(u as char))
                    } else {
                        None
                    }
                } else {
                    None
                }
            } else {
                None
            }
        } else {
            None
        }
    } else if (s[i] as int) < 0x20 {
        None
    } else {
        parse_string_body(s, i + 1, acc.push(s[i]))
    }
}

/// Parses a JSON string whose opening quote stands at `i`.
pub open spec fn parse_string(s: Seq<char>, i: int) -> Option<(Seq<char>, int)> {
    if 0 <= i < s.len() && s[i] == '"' {
        parse_string_body(s, i + 1, Seq::empty())
    } else {
        None
    }
}

pub proof fn lemma_parse_string_body_bounds(s: Seq<char>, i: int, acc: Seq<char>)
    requires
        parse_string_body(s, i, acc) is Some,
    ensures
        0 <= i < s.len(),
        i + 1 <= parse_string_body(s, i, acc)->Some_0.1 <= s.len(),
    decreases s.len() - i,
{
    if s[i] == '"' {
    } else if s[i] == '\\' {
        let e = s[i + 1];
        if e == 'u' {
            lemma_parse_string_body_bounds(s, i + 6, acc.push(
                (hex_val(s[i + 2]) * 4096 + hex_val(s[i + 3]) * 256 + hex_val(s[i + 4]) * 16
                    + hex_val(s[i + 5])) as char));
        } else if e == '"' { lemma_parse_string_body_bounds(s, i + 2, acc.push('"')); }
        else if e == '\\' { lemma_parse_string_body_bounds(s, i + 2, acc.push('\\')); }
        else if e == '/' { lemma_parse_string_body_bounds(s, i + 2, acc.push('/')); }
        else if e == 'b' { lemma_parse_string_body_bounds(s, i + 2, acc.push('\u{0008}')); }
        else if e == 'f' { lemma_parse_string_body_bounds(s, i + 2, acc.push('\u{000C}')); }
        else if e == 'n' { lemma_parse_string_body_bounds(s, i + 2, acc.push('\n')); }
        else if e == 'r' { lemma_parse_string_body_bounds(s, i + 2, acc.push('\r')); }
        else { lemma_parse_string_body_bounds(s, i + 2, acc.push('\t')); }
    } else {
        lemma_parse_string_body_bounds(s, i + 1, acc.push(s[i]));
    }
}

pub proof fn lemma_parse_string_bounds(s: Seq<char>, i: int)
    requires
        parse_string(s, i) is Some,
    ensures
        0 <= i < s.len(),
        i + 2 <= parse_string(s, i)->Some_0.1 <= s.len(),
{
    lemma_parse_string_body_bounds(s, i + 1, Seq::empty());
}

/// Parses the items of a non-empty string array. `i` stands where
/// whitespace and then a string are expected; the items and the index just
/// past the closing bracket are returned.
pub open spec fn parse_array_items(s: Seq<char>, i: int) -> Option<(Seq<Seq<char>>, int)>
    decreases s.len() - i,
{
    let j = skip_ws(s, i);
    match parse_string(s, j) {
        None => None,
        Some((v, k)) => {
            let l = skip_ws(s, k);
            if l < s.len() && s[l] == ',' {
                proof {
                    lemma_parse_string_bounds(s, j);
                    lemma_skip_ws_bounds(s, k);
                    if 0 <= i <= s.len() {
                        lemma_skip_ws_bounds(s, i);
                    }
                }
                match parse_array_items(s, l + 1) {
                    Some((rest, e)) => Some((seq![v].add(rest), e)),
                    None => None,
                }
            } else if l < s.len() && s[l] == ']' {
                Some((seq![v], l + 1))
            } else {
                None
            }
        },
    }
}

/// Parses a string array whose opening bracket stands at `i`.
pub open spec fn parse_array(s: Seq<char>, i: int) -> Option<(Seq<Seq<char>>, int)> {
    if 0 <= i < s.len() && s[i] == '[' {
        let j = skip_ws(s, i + 1);
        if j < s.len() && s[j] == ']' {
            Some((Seq::empty(), j + 1))
        } else {
            parse_array_items(s, i + 1)
        }
    } else {
        None
    }
}

pub proof fn lemma_parse_array_items_bounds(s: Seq<char>, i: int)
    requires
        parse_array_items(s, i) is Some,
    ensures
        i < parse_array_items(s, i)->Some_0.1 <= s.len(),
    decreases s.len() - i,
{
    let j = skip_ws(s, i);
    let (v, k) = parse_string(s, j)->Some_0;
    lemma_parse_string_bounds(s, j);
    lemma_skip_ws_bounds(s, k);
    let l = skip_ws(s, k);
    if i >= 0 {
        lemma_skip_ws_bounds(s, i);
    }
    if l < s.len() && s[l] == ',' {
        lemma_parse_array_items_bounds(s, l + 1);
    }
}

pub proof fn lemma_parse_array_bounds(s: Seq<char>, i: int)
    requires
        parse_array(s, i) is Some,
    ensures
        0 <= i < s.len(),
        i + 2 <= parse_array(s, i)->Some_0.1 <= s.len(),
    decreases s.len() - i,
{
    let j = skip_ws(s, i + 1);
    lemma_skip_ws_bounds(s, i + 1);
    if j < s.len() && s[j] == ']' {
    } else {
        lemma_parse_array_items_bounds(s, i + 1);
    }
}

/// Parses the members of a non-empty object. `i` stands where whitespace
/// and then a key string are expected; the member pairs in order of
/// appearance and the index just past the closing brace are returned.
pub open spec fn parse_members(s: Seq<char>, i: int) -> Option<(KwModel, int)>
    decreases s.len() - i,
{
    let j = skip_ws(s, i);
    match parse_string(s, j) {
        None => None,
        Some((k, a)) => {
            let b = skip_ws(s, a);
            if b < s.len() && s[b] == ':' {
                let c = skip_ws(s, b + 1);
                match parse_array(s, c) {
                    None => None,
                    Some((vs, d)) => {
                        let e = skip_ws(s, d);
                        if e < s.len() && s[e] == ',' {
                            proof {
                                lemma_parse_string_bounds(s, j);
                                lemma_skip_ws_bounds(s, a);
                                lemma_skip_ws_bounds(s, b + 1);
                                lemma_parse_array_bounds(s, c);
                                lemma_skip_ws_bounds(s, d);
                                if 0 <= i <= s.len() {
                                    lemma_skip_ws_bounds(s, i);
                                }
                            }
                            match parse_members(s, e + 1) {
                                Some((rest, f)) => Some((seq![(k, vs)].add(rest), f)),
                                None => None,
                            }
                        } else if e < s.len() && s[e] == '}' {
                            Some((seq![(k, vs)], e + 1))
                        } else {
                            None
                        }
                    },
                }
            } else {
                None
            }
        },
    }
}

pub proof fn lemma_parse_members_bounds(s: Seq<char>, i: int)
    requires
        parse_members(s, i) is Some,
    ensures
        i < parse_members(s, i)->Some_0.1 <= s.len(),
    decreases s.len() - i,
{
    let j = skip_ws(s, i);
    let (k, a) = parse_string(s, j)->Some_0;
    lemma_parse_string_bounds(s, j);
    lemma_skip_ws_bounds(s, a);
    let b = skip_ws(s, a);
    let c = skip_ws(s, b + 1);
    lemma_skip_ws_bounds(s, b + 1);
    let (vs, d) = parse_array(s, c)->Some_0;
    lemma_parse_array_bounds(s, c);
    lemma_skip_ws_bounds(s, d);
    let e = skip_ws(s, d);
    if i >= 0 {
        lemma_skip_ws_bounds(s, i);
    }
    if e < s.len() && s[e] == ',' {
        lemma_parse_members_bounds(s, e + 1);
    }
}

/// Parses a complete record: one object of string arrays, with nothing but
/// whitespace around it. The member pairs are returned in order of
/// appearance, duplicates included.
pub open spec fn parse_text(s: Seq<char>) -> Option<KwModel> {
    let i = skip_ws(s, 0);
    if i < s.len() && s[i] == '{' {
        let j = skip_ws(s, i + 1);
        if j < s.len() && s[j] == '}' {
            if skip_ws(s, j + 1) == s.len() {
                Some(Seq::empty())
            } else {
                None
            }
        } else {
            match parse_members(s, i + 1) {
                Some((ps, e)) => {
                    if skip_ws(s, e) == s.len() {
                        Some(ps)
                    } else {
                        None
                    }
                },
                None => None,
            }
        }
    } else {
        None
    }
}

/// Folds parsed members into a keyword set, last writer winning on a
/// repeated key.
pub open spec fn fold_upserts(acc: KwModel, ps: KwModel) -> KwModel
    decreases ps.len(),
{
    if ps.len() == 0 {
        acc
    } else {
        fold_upserts(upsert_model(acc, ps[0].0, ps[0].1), ps.drop_first())
    }
}

/// Folding members always leaves keys unique.
pub proof fn lemma_fold_upserts_distinct_keys(acc: KwModel, ps: KwModel)
    requires
        crate::keywords::distinct_keys(acc),
    ensures
        crate::keywords::distinct_keys(fold_upserts(acc, ps)),
    decreases ps.len(),
{
    if ps.len() != 0 {
        crate::keywords::lemma_upsert_model_distinct(acc, ps[0].0, ps[0].1);
        lemma_fold_upserts_distinct_keys(upsert_model(acc, ps[0].0, ps[0].1), ps.drop_first());
    }
}

/// What decoding a request body yields: the keyword set, or nothing when
/// the body is not a JSON object of string arrays.
pub open spec fn spec_decode(s: Seq<char>) -> Option<KwModel> {
    match parse_text(s) {
        Some(ps) => Some(fold_upserts(Seq::empty(), ps)),
        None => None,
    }
}

/// Canonical encoding of one character inside a string literal.
pub open spec fn encode_char(c: char) -> Seq<char> {
    if c == '"' {
        seq!['\\', '"']
    } else if c == '\\' {
        seq!['\\', '\\']
    } else if (c as int) < 0x10 {
        seq!['\\', 'u', '0', '0', '0', hex_char(c as int)]
    } else if (c as int) < 0x20 {
        seq!['\\', 'u', '0', '0', '1', hex_char(c as int - 0x10)]
    } else {
        seq![c]
    }
}

/// Canonical encoding of the characters of a string literal.
pub open spec fn encode_string_body(t: Seq<char>) -> Seq<char>
    decreases t.len(),
{
    if t.len() == 0 {
        Seq::empty()
    } else {
        encode_char(t[0]).add(encode_string_body(t.drop_first()))
    }
}

/// Canonical encoding of a string literal, quotes included.
pub open spec fn encode_string(t: Seq<char>) -> Seq<char> {
    seq!['"'].add(encode_string_body(t)).add(seq!['"'])
}

/// Canonical comma-separated encoding of array elements.
pub open spec fn encode_strings(vs: Seq<Seq<char>>) -> Seq<char>
    decreases vs.len(),
{
    if vs.len() == 0 {
        Seq::empty()
    } else if vs.len() == 1 {
        encode_string(vs[0])
    } else {
        encode_string(vs[0]).add(seq![',']).add(encode_strings(vs.drop_first()))
    }
}

/// Canonical encoding of a string array, brackets included.
pub open spec fn encode_array(vs: Seq<Seq<char>>) -> Seq<char> {
    seq!['['].add(encode_strings(vs)).add(seq![']'])
}

/// Canonical encoding of one object member.
pub open spec fn encode_pair(p: (Seq<char>, Seq<Seq<char>>)) -> Seq<char> {
    encode_string(p.0).add(seq![':']).add(encode_array(p.1))
}

/// Canonical comma-separated encoding of object members.
pub open spec fn encode_pairs(m: KwModel) -> Seq<char>
    decreases m.len(),
{
    if m.len() == 0 {
        Seq::empty()
    } else if m.len() == 1 {
        encode_pair(m[0])
    } else {
        encode_pair(m[0]).add(seq![',']).add(encode_pairs(m.drop_first()))
    }
}

/// The canonical serialized form of a keyword set: the stored record.
pub open spec fn spec_encode(m: KwModel) -> Seq<char> {
    seq!['{'].add(encode_pairs(m)).add(seq!['}'])
}

} // verus!
