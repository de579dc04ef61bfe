//! The validated in-memory keyword mapping.
//!
//! A [`KeywordSet`] maps category names to ordered lists of keyword strings.
//! Keys are unique within one set; the order of a key's list is preserved as
//! received. The set is modelled as a sequence of pairs of character
//! sequences, with a well-formedness predicate stating key uniqueness.

use vstd::prelude::*;

verus! {

/// The mathematical model of a keyword set: category names paired with
/// their keyword lists, in order.
pub type KwModel = Seq<(Seq<char>, Seq<Seq<char>>)>;

/// Whether some entry of `m` has key `k`.
pub open spec fn has_key(m: KwModel, k: Seq<char>) -> bool {
    exists|i: int| 0 <= i < m.len() && m[i].0 == k
}

/// No two entries of `m` share a key.
pub open spec fn distinct_keys(m: KwModel) -> bool {
    forall|i: int, j: int| 0 <= i < j < m.len() ==> m[i].0 != m[j].0
}

/// Last-writer-wins insertion: if `k` is already present its list is
/// replaced in place, otherwise the pair is appended.
pub open spec fn upsert_model(m: KwModel, k: Seq<char>, vs: Seq<Seq<char>>) -> KwModel {
    if has_key(m, k) {
        m.update(choose|i: int| 0 <= i < m.len() && m[i].0 == k, (k, vs))
    } else {
        m.push((k, vs))
    }
}

/// Replacing or adding one entry keeps keys unique.
pub proof fn lemma_upsert_model_distinct(m: KwModel, k: Seq<char>, vs: Seq<Seq<char>>)
    requires
        distinct_keys(m),
    ensures
        distinct_keys(upsert_model(m, k, vs)),
{
    if has_key(m, k) {
        let w = choose|w: int| 0 <= w < m.len() && m[w].0 == k;
        let m2 = m.update(w, (k, vs));
        assert forall|p: int, q: int| 0 <= p < q < m2.len() implies m2[p].0 != m2[q].0 by {
            assert(m2[p].0 == m[p].0);
            assert(m2[q].0 == m[q].0);
            assert(m[p].0 != m[q].0);
        }
    } else {
        let m2 = m.push((k, vs));
        assert forall|p: int, q: int| 0 <= p < q < m2.len() implies m2[p].0 != m2[q].0 by {
            if q == m.len() as int {
                assert(!(0 <= p < m.len() && m[p].0 == k));
            } else {
                assert(m[p].0 != m[q].0);
            }
        }
    }
}

/// A mapping from category name to an ordered list of keyword strings,
/// with unique keys.
pub struct KeywordSet {
    entries: Vec<(String, Vec<String>)>,
}

impl View for KeywordSet {
    type V = KwModel;

    closed spec fn view(&self) -> KwModel {
        self.entries.deep_view()
    }
}

impl KeywordSet {
    /// Key uniqueness, the set's invariant.
    pub open spec fn wf(&self) -> bool {
        distinct_keys(self@)
    }

    /// Creates an empty keyword set.
    pub fn new() -> (k: KeywordSet)
        ensures
            k@ == Seq::<(Seq<char>, Seq<Seq<char>>)>::empty(),
            k.wf(),
    {
        let k = KeywordSet { entries: Vec::new() };
        proof {
            assert(k@ =~= Seq::<(Seq<char>, Seq<Seq<char>>)>::empty());
        }
        k
    }

    /// Number of categories in the set.
    pub fn len(&self) -> (n: usize)
        ensures
            n == self@.len(),
    {
        self.entries.len()
    }

    /// Index of the entry with key `key`, if one exists.
    fn find_idx(&self, key: &str) -> (r: Option<usize>)
        ensures
            match r {
                Some(i) => 0 <= i < self@.len() && self@[i as int].0 == key@,
                None => !has_key(self@, key@),
            },
    {
        let mut i: usize = 0;
        while i < self.entries.len()
            invariant
                self.entries.len() == self@.len(),
                forall|j: int| 0 <= j < i ==> self@[j].0 != key@,
            decreases self.entries.len() - i,
        {
            if str_eq(self.entries[i].0.as_str(), key) {
                proof {
                    assert(self@[i as int].0 == self.entries@[i as int].0@);
                }
                return Some(i);
            }
            i += 1;
        }
        None
    }

    /// Stores `values` under `key`, replacing any previous list for `key`.
    pub fn upsert(&mut self, key: String, values: Vec<String>)
        requires
            old(self).wf(),
        ensures
            final(self)@ == upsert_model(old(self)@, key@, values.deep_view()),
            final(self).wf(),
    {
        let ghost m0 = self@;
        let ghost kv = key@;
        let ghost vv = values.deep_view();
        let idx = self.find_idx(key.as_str());
        match idx {
            Some(i) => {
                self.entries.set(i, (key, values));
                proof {
                    assert(has_key(m0, kv)) by {
                        assert(m0[i as int].0 == kv);
                    }
                    let w = choose|w: int| 0 <= w < m0.len() && m0[w].0 == kv;
                    if w < i as int {
                        assert(m0[w].0 != m0[i as int].0);
                    } else if w > i as int {
                        assert(m0[i as int].0 != m0[w].0);
                    }
                    assert(w == i as int);
                    assert(upsert_model(m0, kv, vv) == m0.update(i as int, (kv, vv)));
                    assert(self@ =~~= m0.update(i as int, (kv, vv)));
                    assert forall|p: int, q: int| 0 <= p < q < self@.len() implies self@[p].0
                        != self@[q].0 by {
                        assert(m0[p].0 != m0[q].0);
                    }
                }
            },
            None => {
                self.entries.push((key, values));
                proof {
                    assert(!has_key(m0, kv));
                    assert(self@ =~~= m0.push((kv, vv)));
                    assert forall|p: int, q: int| 0 <= p < q < self@.len() implies self@[p].0
                        != self@[q].0 by {
                        if q == m0.len() as int {
                            assert(m0[p].0 != kv);
                        } else {
                            assert(m0[p].0 != m0[q].0);
                        }
                    }
                }
            },
        }
    }

    /// The category entries in order.
    pub fn entries(&self) -> (r: &Vec<(String, Vec<String>)>)
        ensures
            r.deep_view() == self@,
    {
        &self.entries
    }

    /// Returns the keyword list stored under `key`, if any.
    pub fn get(&self, key: &str) -> (r: Option<&Vec<String>>)
        requires
            self.wf(),
        ensures
            match r {
                Some(vs) => has_key(self@, key@) && exists|i: int|
                    0 <= i < self@.len() && self@[i].0 == key@ && vs.deep_view() == self@[i].1,
                None => !has_key(self@, key@),
            },
    {
        let mut i: usize = 0;
        while i < self.entries.len()
            invariant
                self.entries.len() == self@.len(),
                forall|j: int| 0 <= j < i ==> self@[j].0 != key@,
            decreases self.entries.len() - i,
        {
            if str_eq(self.entries[i].0.as_str(), key) {
                proof {
                    let ii = i as int;
                    assert(0 <= ii < self@.len() && self@[ii].0 == key@
                        && self.entries@[ii].1.deep_view() == self@[ii].1);
                }
                return Some(&self.entries[i].1);
            }
            i += 1;
        }
        None
    }
}

/// Character-by-character string equality, proved against the string views.
pub fn str_eq(a: &str, b: &str) -> (r: bool)
    ensures
        r == (a@ == b@),
{
    let na = a.unicode_len();
    let nb = b.unicode_len();
    if na != nb {
        return false;
    }
    let mut i: usize = 0;
    while i < na
        invariant
            na == a@.len(),
            nb == b@.len(),
            na == nb,
            i <= na,
            forall|j: int| 0 <= j < i ==> a@[j] == b@[j],
        decreases na - i,
    {
        if a.get_char(i) != b.get_char(i) {
            return false;
        }
        i += 1;
    }
    proof {
        assert(a@ =~= b@);
    }
    true
}

} // verus!
