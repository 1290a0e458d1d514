//! An ordered string-to-string mapping with unique keys.
//!
//! One row of a dataset is such a mapping from field name to field value;
//! the template store that maps a path to template text is another; the
//! guard set of already-expanded paths is a third (values ignored).  Entry
//! order is the insertion order, which is the iteration order the encoders
//! use within one pass.
use vstd::prelude::*;

use crate::text::str_eq;

verus! {

/// A pair sequence model: `(key, value)` in entry order.
#[derive(Clone)]
pub struct StrMap {
    entries: Vec<(String, String)>,
}

impl View for StrMap {
    type V = Seq<(Seq<char>, Seq<char>)>;

    closed spec fn view(&self) -> Seq<(Seq<char>, Seq<char>)> {
        Seq::new(self.entries@.len(), |i: int| (self.entries@[i].0@, self.entries@[i].1@))
    }
}

impl DeepView for StrMap {
    type V = Seq<(Seq<char>, Seq<char>)>;

    open spec fn deep_view(&self) -> Seq<(Seq<char>, Seq<char>)> {
        self.view()
    }
}

/// The value stored under `k`: the value of the first entry whose key is
/// `k`, if any.
pub open spec fn lookup_from(m: Seq<(Seq<char>, Seq<char>)>, k: Seq<char>, i: int) -> Option<
    Seq<char>,
>
    decreases m.len() - i,
        when 0 <= i
{
    if i >= m.len() {
        None
    } else if m[i].0 == k {
        Some(m[i].1)
    } else {
        lookup_from(m, k, i + 1)
    }
}

pub open spec fn lookup(m: Seq<(Seq<char>, Seq<char>)>, k: Seq<char>) -> Option<Seq<char>> {
    lookup_from(m, k, 0)
}

pub open spec fn has_key(m: Seq<(Seq<char>, Seq<char>)>, k: Seq<char>) -> bool {
    lookup(m, k) is Some
}

/// The keys of the mapping, as a set.
pub open spec fn key_set(m: Seq<(Seq<char>, Seq<char>)>) -> Set<Seq<char>> {
    m.map_values(|p: (Seq<char>, Seq<char>)| p.0).to_set()
}

/// No key occurs in two entries.
pub open spec fn unique_keys(m: Seq<(Seq<char>, Seq<char>)>) -> bool {
    forall|i: int, j: int| 0 <= i < j < m.len() ==> m[i].0 != m[j].0
}

/// `m` with `v` stored under `k`: the first entry keyed `k` has its value
/// replaced; with no such entry, `(k, v)` is appended.
pub open spec fn set_spec(
    m: Seq<(Seq<char>, Seq<char>)>,
    k: Seq<char>,
    v: Seq<char>,
) -> Seq<(Seq<char>, Seq<char>)>
    decreases m.len(),
{
    if m.len() == 0 {
        seq![(k, v)]
    } else if m[0].0 == k {
        seq![(k, v)] + m.drop_first()
    } else {
        seq![m[0]] + set_spec(m.drop_first(), k, v)
    }
}

pub proof fn lemma_key_set_has(m: Seq<(Seq<char>, Seq<char>)>, k: Seq<char>)
    ensures
        key_set(m).contains(k) == has_key(m, k),
    decreases m.len(),
{
    broadcast use vstd::seq_lib::group_seq_lib_default;

    if m.len() == 0 {
        assert(m.map_values(|p: (Seq<char>, Seq<char>)| p.0) =~= Seq::<Seq<char>>::empty());
        assert(!key_set(m).contains(k));
    } else {
        lemma_key_set_has(m.drop_first(), k);
        let keys = m.map_values(|p: (Seq<char>, Seq<char>)| p.0);
        let keys1 = m.drop_first().map_values(|p: (Seq<char>, Seq<char>)| p.0);
        assert(keys =~= seq![m[0].0] + keys1);
        assert(keys.to_set().contains(k) <==> (m[0].0 == k || keys1.to_set().contains(k))) by {
            if keys.to_set().contains(k) {
                let i = choose|i: int| 0 <= i < keys.len() && keys[i] == k;
                if i > 0 {
                    assert(keys1[i - 1] == k);
                    assert(keys1.to_set().contains(k));
                }
            }
            if keys1.to_set().contains(k) {
                let i = choose|i: int| 0 <= i < keys1.len() && keys1[i] == k;
                assert(keys[i + 1] == k);
            }
            if m[0].0 == k {
                assert(keys[0] == k);
            }
        }
        assert(has_key(m, k) <==> (m[0].0 == k || has_key(m.drop_first(), k))) by {
            lemma_lookup_shift(m, k);
        }
    }
}

/// Looking up in the tail is looking up from index 1.
proof fn lemma_lookup_shift(m: Seq<(Seq<char>, Seq<char>)>, k: Seq<char>)
    requires
        m.len() > 0,
    ensures
        lookup(m.drop_first(), k) == lookup_from(m, k, 1),
{
    lemma_lookup_shift_from(m, k, 0);
}

proof fn lemma_lookup_shift_from(m: Seq<(Seq<char>, Seq<char>)>, k: Seq<char>, i: int)
    requires
        m.len() > 0,
        0 <= i,
    ensures
        lookup_from(m.drop_first(), k, i) == lookup_from(m, k, i + 1),
    decreases m.len() - i,
{
    if i >= m.drop_first().len() {
    } else {
        lemma_lookup_shift_from(m, k, i + 1);
    }
}

/// The guard-set view of a mapping only ever grows under `set`, and grows
/// by exactly the stored key.
pub proof fn lemma_set_spec_keys(m: Seq<(Seq<char>, Seq<char>)>, k: Seq<char>, v: Seq<char>)
    ensures
        key_set(set_spec(m, k, v)) =~= key_set(m).insert(k),
        has_key(set_spec(m, k, v), k),
        forall|k2: Seq<char>| k2 != k ==> lookup(set_spec(m, k, v), k2) == lookup(m, k2),
        unique_keys(m) ==> unique_keys(set_spec(m, k, v)),
        lookup(set_spec(m, k, v), k) == Some(v),
    decreases m.len(),
{
    broadcast use vstd::seq_lib::group_seq_lib_default;

    let r = set_spec(m, k, v);
    if m.len() == 0 {
        assert(r =~= seq![(k, v)]);
        assert forall|k2: Seq<char>| true implies key_set(r).contains(k2) == (k2 == k) by {
            lemma_key_set_has(r, k2);
        }
        lemma_key_set_has(m, k);
        assert forall|k2: Seq<char>| k2 != k implies lookup(r, k2) == lookup(m, k2) by {
            assert(lookup_from(r, k2, 1) is None);
            lemma_key_set_has(m, k2);
        }
        assert(key_set(r) =~= key_set(m).insert(k));
    } else if m[0].0 == k {
        assert(r == seq![(k, v)] + m.drop_first());
        assert forall|k2: Seq<char>| true implies
            key_set(r).contains(k2) == key_set(m).insert(k).contains(k2) by {
            lemma_key_set_has(r, k2);
            lemma_key_set_has(m, k2);
            lemma_key_set_has(m.drop_first(), k2);
            lemma_lookup_shift(m, k2);
            lemma_lookup_shift(r, k2);
            assert(r.drop_first() =~= m.drop_first());
        }
        assert(key_set(r) =~= key_set(m).insert(k));
        assert(r.drop_first() =~= m.drop_first());
        assert forall|k2: Seq<char>| k2 != k implies lookup(r, k2) == lookup(m, k2) by {
            lemma_lookup_shift(m, k2);
            lemma_lookup_shift(r, k2);
        }
        if unique_keys(m) {
            assert forall|i: int, j: int| 0 <= i < j < r.len() implies r[i].0 != r[j].0 by {
                if i > 0 {
                    assert(r[i] == m[i] && r[j] == m[j]);
                } else {
                    assert(r[j] == m[j]);
                }
            }
        }
    } else {
        lemma_set_spec_keys(m.drop_first(), k, v);
        assert(r == seq![m[0]] + set_spec(m.drop_first(), k, v));
        assert(r.drop_first() =~= set_spec(m.drop_first(), k, v));
        assert forall|k2: Seq<char>| true implies
            key_set(r).contains(k2) == key_set(m).insert(k).contains(k2) by {
            lemma_key_set_has(r, k2);
            lemma_key_set_has(m, k2);
            lemma_key_set_has(m.drop_first(), k2);
            lemma_key_set_has(set_spec(m.drop_first(), k, v), k2);
            lemma_lookup_shift(m, k2);
            lemma_lookup_shift(r, k2);
        }
        assert(key_set(r) =~= key_set(m).insert(k));
        assert forall|k2: Seq<char>| k2 != k implies lookup(r, k2) == lookup(m, k2) by {
            lemma_lookup_shift(m, k2);
            lemma_lookup_shift(r, k2);
        }
        assert(has_key(r, k)) by {
            lemma_lookup_shift(r, k);
        }
        assert(lookup(r, k) == Some(v)) by {
            lemma_lookup_shift(r, k);
        }
        if unique_keys(m) {
            assert(unique_keys(r)) by {
                let r1 = set_spec(m.drop_first(), k, v);
                assert forall|i: int, j: int| 0 <= i < j < r.len() implies r[i].0 != r[j].0 by {
                    if i > 0 {
                        assert(r[i] == r1[i - 1] && r[j] == r1[j - 1]);
                    } else {
                        assert(r[j] == r1[j - 1]);
                        assert(!has_key(m.drop_first(), m[0].0)) by {
                            lemma_lookup_has_index(m.drop_first(), m[0].0);
                        }
                        if r1[j - 1].0 == m[0].0 {
                            if r1[j - 1].0 == k {
                            } else {
                                lemma_index_has_key(r1, j - 1);
                                lemma_key_set_has(r1, m[0].0);
                                lemma_key_set_has(m.drop_first(), m[0].0);
                            }
                        }
                    }
                }
            }
        }
    }
}

/// If some entry has key `k`, then `has_key` holds.
proof fn lemma_index_has_key(m: Seq<(Seq<char>, Seq<char>)>, i: int)
    requires
        0 <= i < m.len(),
    ensures
        has_key(m, m[i].0),
{
    lemma_index_has_key_from(m, i, 0);
}

proof fn lemma_index_has_key_from(m: Seq<(Seq<char>, Seq<char>)>, i: int, j: int)
    requires
        0 <= j <= i < m.len(),
    ensures
        lookup_from(m, m[i].0, j) is Some,
    decreases i - j,
{
    if m[j].0 == m[i].0 {
    } else {
        lemma_index_has_key_from(m, i, j + 1);
    }
}

/// If `has_key` holds, some entry has key `k`.
proof fn lemma_lookup_has_index(m: Seq<(Seq<char>, Seq<char>)>, k: Seq<char>)
    ensures
        has_key(m, k) ==> exists|i: int| 0 <= i < m.len() && m[i].0 == k,
        !has_key(m, k) ==> forall|i: int| 0 <= i < m.len() ==> m[i].0 != k,
{
    lemma_lookup_index_from(m, k, 0);
}

proof fn lemma_lookup_index_from(m: Seq<(Seq<char>, Seq<char>)>, k: Seq<char>, j: int)
    requires
        0 <= j,
    ensures
        lookup_from(m, k, j) is Some ==> exists|i: int| j <= i < m.len() && m[i].0 == k,
        lookup_from(m, k, j) is None ==> forall|i: int| j <= i < m.len() ==> m[i].0 != k,
    decreases m.len() - j,
{
    if j >= m.len() {
    } else if m[j].0 == k {
    } else {
        lemma_lookup_index_from(m, k, j + 1);
    }
}

impl StrMap {
    /// An empty mapping.
    pub fn new() -> (r: StrMap)
        ensures
            r@ == Seq::<(Seq<char>, Seq<char>)>::empty(),
            unique_keys(r@),
    {
        let r = StrMap { entries: Vec::new() };
        proof {
            assert(r@ =~= Seq::<(Seq<char>, Seq<char>)>::empty());
        }
        r
    }

    /// The number of entries.
    pub fn len(&self) -> (n: usize)
        ensures
            n == self@.len(),
    {
        self.entries.len()
    }

    /// The key of the entry at position `i`.
    pub fn key_at(&self, i: usize) -> (k: &String)
        requires
            i < self@.len(),
        ensures
            k@ == self@[i as int].0,
    {
        &self.entries[i].0
    }

    /// The value of the entry at position `i`.
    pub fn val_at(&self, i: usize) -> (v: &String)
        requires
            i < self@.len(),
        ensures
            v@ == self@[i as int].1,
    {
        &self.entries[i].1
    }

    /// The value stored under `k`, if any.
    pub fn get(&self, k: &str) -> (r: Option<&String>)
        ensures
            match r {
                Some(v) => lookup(self@, k@) == Some(v@),
                None => lookup(self@, k@) is None,
            },
    {
        let n = self.entries.len();
        let mut i: usize = 0;
        while i < n
            invariant
                0 <= i <= n == self@.len(),
                lookup(self@, k@) == lookup_from(self@, k@, i as int),
            decreases n - i,
        {
            if str_eq(self.entries[i].0.as_str(), k) {
                return Some(&self.entries[i].1);
            }
            i = i + 1;
        }
        None
    }

    /// Whether an entry is stored under `k`.
    pub fn contains_key(&self, k: &str) -> (r: bool)
        ensures
            r == has_key(self@, k@),
    {
        self.get(k).is_some()
    }

    /// Store `v` under `k`, replacing the value of an existing entry or
    /// appending a new one.
    pub fn set(&mut self, k: String, v: String)
        ensures
            final(self)@ == set_spec(old(self)@, k@, v@),
    {
        let ghost m0 = self@;
        let n = self.entries.len();
        let mut i: usize = 0;
        while i < n
            invariant
                0 <= i <= n == self@.len(),
                self@ == m0,
                m0 == old(self)@,
                forall|t: int| 0 <= t < i ==> m0[t].0 != k@,
            decreases n - i,
        {
            if str_eq(self.entries[i].0.as_str(), k.as_str()) {
                let ghost gk = k@;
                let ghost gv = v@;
                let entry = (k, v);
                proof {
                    assert(entry.0@ == gk && entry.1@ == gv);
                }
                self.entries.set(i, entry);
                proof {
                    assert(self@ =~= m0.update(i as int, (gk, gv)));
                    lemma_set_spec_at(m0, gk, gv, i as int);
                }
                return ;
            }
            i = i + 1;
        }
        let ghost gk = k@;
        let ghost gv = v@;
        let entry = (k, v);
        proof {
            assert(entry.0@ == gk && entry.1@ == gv);
        }
        self.entries.push(entry);
        proof {
            assert(self@ =~= m0.push((gk, gv)));
            lemma_set_spec_append(m0, gk, gv);
        }
    }
}

/// When no entry before `i` is keyed `k` and entry `i` is, storing under
/// `k` updates entry `i` in place.
proof fn lemma_set_spec_at(m: Seq<(Seq<char>, Seq<char>)>, k: Seq<char>, v: Seq<char>, i: int)
    requires
        0 <= i < m.len(),
        m[i].0 == k,
        forall|t: int| 0 <= t < i ==> m[t].0 != k,
    ensures
        set_spec(m, k, v) =~= m.update(i, (k, v)),
    decreases i,
{
    if i == 0 {
        assert(set_spec(m, k, v) == seq![(k, v)] + m.drop_first());
    } else {
        lemma_set_spec_at(m.drop_first(), k, v, i - 1);
        assert(set_spec(m, k, v) == seq![m[0]] + set_spec(m.drop_first(), k, v));
        assert(m.drop_first().update(i - 1, (k, v)) =~= m.update(i, (k, v)).drop_first());
    }
}

/// When no entry is keyed `k`, storing under `k` appends.
proof fn lemma_set_spec_append(m: Seq<(Seq<char>, Seq<char>)>, k: Seq<char>, v: Seq<char>)
    requires
        forall|t: int| 0 <= t < m.len() ==> m[t].0 != k,
    ensures
        set_spec(m, k, v) =~= m.push((k, v)),
    decreases m.len(),
{
    if m.len() == 0 {
    } else {
        lemma_set_spec_append(m.drop_first(), k, v);
        assert(m.drop_first().push((k, v)) =~= m.push((k, v)).drop_first());
    }
}

} // verus!
