//! Association maps backed by vectors of key-value pairs with distinct keys.
//!
//! `StrAssoc` keys by string, `SeqNoAssoc` keys by sequence number. Both keep
//! the insertion order of first occurrence, which the index relies on so that
//! a full pass and an incremental pass lay their entries out the same way.

use vstd::prelude::*;

use crate::strutil::str_eq;

verus! {

/// Does an entry with the given key occur in the pair sequence?
pub open spec fn assoc_has_key<K, T>(s: Seq<(K, T)>, k: K) -> bool {
    exists|i: int| 0 <= i < s.len() && s[i].0 == k
}

/// An index at which the given key occurs.
pub open spec fn assoc_key_index<K, T>(s: Seq<(K, T)>, k: K) -> int {
    choose|i: int| 0 <= i < s.len() && s[i].0 == k
}

/// The value stored under the given key, if any.
pub open spec fn assoc_get<K, T>(s: Seq<(K, T)>, k: K) -> Option<T> {
    if assoc_has_key(s, k) {
        Some(s[assoc_key_index(s, k)].1)
    } else {
        None
    }
}

/// Store a value under a key: replace in place if the key occurs,
/// append a fresh entry otherwise.
pub open spec fn assoc_put<K, T>(s: Seq<(K, T)>, k: K, v: T) -> Seq<(K, T)> {
    if assoc_has_key(s, k) {
        s.update(assoc_key_index(s, k), (k, v))
    } else {
        s.push((k, v))
    }
}

/// No key occurs twice.
pub open spec fn assoc_distinct<K, T>(s: Seq<(K, T)>) -> bool {
    forall|i: int, j: int| 0 <= i < j < s.len() ==> s[i].0 != s[j].0
}

/// The set of keys of the pair sequence.
pub open spec fn assoc_key_set<K, T>(s: Seq<(K, T)>) -> Set<K> {
    Set::new(|k: K| assoc_has_key(s, k))
}

pub proof fn lemma_assoc_put_distinct<K, T>(s: Seq<(K, T)>, k: K, v: T)
    requires
        assoc_distinct(s),
    ensures
        assoc_distinct(assoc_put(s, k, v)),
        assoc_has_key(assoc_put(s, k, v), k),
        assoc_get(assoc_put(s, k, v), k) == Some(v),
        forall|k2: K| k2 != k ==> assoc_get(assoc_put(s, k, v), k2) == assoc_get(s, k2),
        forall|k2: K| k2 != k ==> (assoc_has_key(assoc_put(s, k, v), k2) == assoc_has_key(s, k2)),
        assoc_put(s, k, v).len() == if assoc_has_key(s, k) {
            s.len()
        } else {
            s.len() + 1
        },
{
    let t = assoc_put(s, k, v);
    if assoc_has_key(s, k) {
        let i = assoc_key_index(s, k);
        assert(t[i].0 == k && t[i].1 == v);
        assert(assoc_has_key(t, k));
        let j = assoc_key_index(t, k);
        assert(0 <= j < t.len() && t[j].0 == k);
        if j != i {
            assert(s[j].0 == k);
            assert(false);
        }
        assert forall|k2: K| k2 != k implies assoc_get(t, k2) == assoc_get(s, k2) by {
            lemma_assoc_update_other(s, i, (k, v), k2);
        }
        assert forall|k2: K| k2 != k implies assoc_has_key(t, k2) == assoc_has_key(s, k2) by {
            lemma_assoc_update_other(s, i, (k, v), k2);
        }
    } else {
        assert(t == s.push((k, v)));
        assert(t[s.len() as int].0 == k);
        assert(assoc_has_key(t, k));
        let j = assoc_key_index(t, k);
        if j != s.len() {
            assert(s[j].0 == k);
            assert(false);
        }
        assert(assoc_get(t, k) == Some(v));
        assert forall|k2: K| k2 != k implies assoc_get(t, k2) == assoc_get(s, k2)
            && assoc_has_key(t, k2) == assoc_has_key(s, k2) by {
            assert(forall|i: int| 0 <= i < s.len() ==> t[i] == s[i]);
            if assoc_has_key(t, k2) {
                let i2 = assoc_key_index(t, k2);
                assert(i2 < s.len());
                assert(s[i2].0 == k2);
                assert(assoc_has_key(s, k2));
                let i3 = assoc_key_index(s, k2);
                if i3 != i2 {
                    assert(false);
                }
            }
            if assoc_has_key(s, k2) {
                let i2 = assoc_key_index(s, k2);
                assert(t[i2].0 == k2);
                assert(assoc_has_key(t, k2));
            }
        }
    }
}

/// The head's key looks up the head's value.
pub proof fn lemma_assoc_first_get<K, T>(s: Seq<(K, T)>, k: K)
    requires
        assoc_distinct(s),
        s.len() > 0,
        s[0].0 == k,
    ensures
        assoc_has_key(s, k),
        assoc_get(s, k) == Some(s[0].1),
{
    assert(assoc_has_key(s, k));
    let i = assoc_key_index(s, k);
    if i != 0 {
        assert(s[i].0 == k);
        assert(false);
    }
}

/// Any other key looks up the same value before and after the head is
/// dropped.
pub proof fn lemma_assoc_drop_first_get<K, T>(s: Seq<(K, T)>, k: K)
    requires
        assoc_distinct(s),
        s.len() > 0,
        s[0].0 != k,
    ensures
        assoc_distinct(s.drop_first()),
        assoc_has_key(s.drop_first(), k) == assoc_has_key(s, k),
        assoc_get(s.drop_first(), k) == assoc_get(s, k),
{
    let d = s.drop_first();
    assert forall|i: int, j: int| 0 <= i < j < d.len() implies d[i].0 != d[j].0 by {
        assert(d[i] == s[i + 1] && d[j] == s[j + 1]);
    }
    if assoc_has_key(d, k) {
        let i = assoc_key_index(d, k);
        assert(d[i] == s[i + 1]);
        assert(s[i + 1].0 == k);
        assert(assoc_has_key(s, k));
        let j = assoc_key_index(s, k);
        if j != i + 1 {
            assert(s[j].0 == k);
            assert(false);
        }
        assert(assoc_get(s, k) == Some(s[i + 1].1));
        assert(assoc_get(d, k) == Some(d[i].1));
    }
    if assoc_has_key(s, k) {
        let j = assoc_key_index(s, k);
        assert(s[j].0 == k);
        assert(j > 0);
        assert(d[j - 1].0 == k);
        assert(assoc_has_key(d, k));
    }
}

proof fn lemma_assoc_update_other<K, T>(s: Seq<(K, T)>, i: int, e: (K, T), k2: K)
    requires
        assoc_distinct(s),
        0 <= i < s.len(),
        s[i].0 == e.0,
        k2 != e.0,
    ensures
        assoc_get(s.update(i, e), k2) == assoc_get(s, k2),
        assoc_has_key(s.update(i, e), k2) == assoc_has_key(s, k2),
{
    let t = s.update(i, e);
    if assoc_has_key(s, k2) {
        let j = assoc_key_index(s, k2);
        assert(j != i);
        assert(t[j].0 == k2);
        assert(assoc_has_key(t, k2));
        let j2 = assoc_key_index(t, k2);
        assert(j2 != i);
        assert(s[j2].0 == k2);
        if j2 != j {
            assert(false);
        }
    }
    if assoc_has_key(t, k2) {
        let j = assoc_key_index(t, k2);
        assert(j != i);
        assert(s[j].0 == k2);
        assert(assoc_has_key(s, k2));
    }
}

/// A map from strings to values, backed by a vector of pairs.
pub struct StrAssoc<V> {
    pub entries: Vec<(String, V)>,
}

impl<V: View> View for StrAssoc<V> {
    type V = Seq<(Seq<char>, V::V)>;

    open spec fn view(&self) -> Seq<(Seq<char>, V::V)> {
        self.entries@.map(|i: int, e: (String, V)| (e.0@, e.1@))
    }
}

impl<V: View> StrAssoc<V> {
    /// Keys are pairwise distinct.
    pub open spec fn wf(&self) -> bool {
        assoc_distinct(self@)
    }

    pub fn new() -> (r: Self)
        ensures
            r@ == Seq::<(Seq<char>, V::V)>::empty(),
            r.wf(),
    {
        let r = StrAssoc { entries: Vec::new() };
        proof {
            assert(r@ =~= Seq::<(Seq<char>, V::V)>::empty());
        }
        r
    }

    pub fn len(&self) -> (r: usize)
        ensures
            r == self@.len(),
    {
        self.entries.len()
    }

    /// The entry at a position, in insertion order of first occurrence.
    pub fn entry_at(&self, i: usize) -> (r: &(String, V))
        requires
            i < self@.len(),
        ensures
            (r.0@, r.1@) == self@[i as int],
    {
        &self.entries[i]
    }

    /// Position of the entry with the given key, if any.
    fn find(&self, k: &str) -> (r: Option<usize>)
        requires
            self.wf(),
        ensures
            match r {
                Some(i) => i < self@.len() && self@[i as int].0 == k@,
                None => !assoc_has_key(self@, k@),
            },
    {
        let n = self.entries.len();
        let mut i: usize = 0;
        while i < n
            invariant
                i <= n,
                n == self@.len(),
                n == self.entries@.len(),
                forall|j: int| 0 <= j < i ==> self@[j].0 != k@,
            decreases n - i,
        {
            if str_eq(self.entries[i].0.as_str(), k) {
                return Some(i);
            }
            i += 1;
        }
        None
    }

    pub fn get(&self, k: &str) -> (r: Option<&V>)
        requires
            self.wf(),
        ensures
            match r {
                Some(v) => assoc_get(self@, k@) == Some(v@),
                None => assoc_get(self@, k@) is None,
            },
    {
        match self.find(k) {
            Some(i) => {
                proof {
                    let j = assoc_key_index(self@, k@);
                    if j != i {
                        assert(self@[j].0 == k@);
                        assert(false);
                    }
                }
                Some(&self.entries[i].1)
            },
            None => None,
        }
    }

    pub fn contains_key(&self, k: &str) -> (r: bool)
        requires
            self.wf(),
        ensures
            r == assoc_has_key(self@, k@),
    {
        self.find(k).is_some()
    }

    pub fn put(&mut self, k: String, v: V)
        requires
            old(self).wf(),
        ensures
            final(self).wf(),
            final(self)@ == assoc_put(old(self)@, k@, v@),
    {
        proof {
            lemma_assoc_put_distinct(self@, k@, v@);
        }
        match self.find(k.as_str()) {
            Some(i) => {
                proof {
                    let j = assoc_key_index(self@, k@);
                    if j != i {
                        assert(self@[j].0 == k@);
                        assert(false);
                    }
                }
                self.entries[i] = (k, v);
                proof {
                    assert(self@ =~= assoc_put(old(self)@, k@, v@));
                }
            },
            None => {
                self.entries.push((k, v));
                proof {
                    assert(self@ =~= assoc_put(old(self)@, k@, v@));
                }
            },
        }
    }
}

/// A map from sequence numbers to values, backed by a vector of pairs.
pub struct SeqNoAssoc<V> {
    pub entries: Vec<(u32, V)>,
}

impl<V: View> View for SeqNoAssoc<V> {
    type V = Seq<(u32, V::V)>;

    open spec fn view(&self) -> Seq<(u32, V::V)> {
        self.entries@.map(|i: int, e: (u32, V)| (e.0, e.1@))
    }
}

impl<V: View> SeqNoAssoc<V> {
    /// Keys are pairwise distinct.
    pub open spec fn wf(&self) -> bool {
        assoc_distinct(self@)
    }

    pub fn new() -> (r: Self)
        ensures
            r@ == Seq::<(u32, V::V)>::empty(),
            r.wf(),
    {
        let r = SeqNoAssoc { entries: Vec::new() };
        proof {
            assert(r@ =~= Seq::<(u32, V::V)>::empty());
        }
        r
    }

    pub fn len(&self) -> (r: usize)
        ensures
            r == self@.len(),
    {
        self.entries.len()
    }

    /// Position of the entry with the given key, if any.
    fn find(&self, k: u32) -> (r: Option<usize>)
        requires
            self.wf(),
        ensures
            match r {
                Some(i) => i < self@.len() && self@[i as int].0 == k,
                None => !assoc_has_key(self@, k),
            },
    {
        let n = self.entries.len();
        let mut i: usize = 0;
        while i < n
            invariant
                i <= n,
                n == self@.len(),
                n == self.entries@.len(),
                forall|j: int| 0 <= j < i ==> self@[j].0 != k,
            decreases n - i,
        {
            if self.entries[i].0 == k {
                return Some(i);
            }
            i += 1;
        }
        None
    }

    pub fn get(&self, k: u32) -> (r: Option<&V>)
        requires
            self.wf(),
        ensures
            match r {
                Some(v) => assoc_get(self@, k) == Some(v@),
                None => assoc_get(self@, k) is None,
            },
    {
        match self.find(k) {
            Some(i) => {
                proof {
                    let j = assoc_key_index(self@, k);
                    if j != i {
                        assert(self@[j].0 == k);
                        assert(false);
                    }
                }
                Some(&self.entries[i].1)
            },
            None => None,
        }
    }

    pub fn put(&mut self, k: u32, v: V)
        requires
            old(self).wf(),
        ensures
            final(self).wf(),
            final(self)@ == assoc_put(old(self)@, k, v@),
    {
        proof {
            lemma_assoc_put_distinct(self@, k, v@);
        }
        match self.find(k) {
            Some(i) => {
                proof {
                    let j = assoc_key_index(self@, k);
                    if j != i {
                        assert(self@[j].0 == k);
                        assert(false);
                    }
                }
                self.entries[i] = (k, v);
                proof {
                    assert(self@ =~= assoc_put(old(self)@, k, v@));
                }
            },
            None => {
                self.entries.push((k, v));
                proof {
                    assert(self@ =~= assoc_put(old(self)@, k, v@));
                }
            },
        }
    }
}

} // verus!
