//! An insertion-ordered association map with unique keys.

use vstd::prelude::*;

verus! {

/// Keys that can be compared for equality of their views.
pub trait KeyEq: View + Sized {
    fn key_eq(&self, other: &Self) -> (r: bool)
        ensures
            r == (self@ == other@),
    ;
}

/// No key occurs twice in `s`.
pub open spec fn keys_unique<K: View, V>(s: Seq<(K, V)>) -> bool {
    forall|i: int, j: int|
        0 <= i < s.len() && 0 <= j < s.len() && i != j ==> #[trigger] s[i].0@ != #[trigger] s[j].0@
}

/// Some entry of `s` has the key `k`.
pub open spec fn has_key<K: View, V>(s: Seq<(K, V)>, k: K::V) -> bool {
    exists|i: int| 0 <= i < s.len() && (#[trigger] s[i]).0@ == k
}

/// The index of the entry of `s` with the key `k`.
pub open spec fn index_of<K: View, V>(s: Seq<(K, V)>, k: K::V) -> int {
    choose|i: int| 0 <= i < s.len() && (#[trigger] s[i]).0@ == k
}

/// The map that the entries `s` describe.
pub open spec fn to_map<K: View, V: View>(s: Seq<(K, V)>) -> Map<K::V, V::V> {
    Map::new(|k: K::V| has_key(s, k), |k: K::V| s[index_of(s, k)].1@)
}

pub proof fn lemma_index_of<K: View, V>(s: Seq<(K, V)>, i: int)
    requires
        keys_unique(s),
        0 <= i < s.len(),
    ensures
        has_key(s, s[i].0@),
        index_of(s, s[i].0@) == i,
{
    assert(has_key(s, s[i].0@));
    let j = index_of(s, s[i].0@);
    assert(s[j].0@ == s[i].0@);
}

pub proof fn lemma_to_map_index<K: View, V: View>(s: Seq<(K, V)>, i: int)
    requires
        keys_unique(s),
        0 <= i < s.len(),
    ensures
        to_map(s).dom().contains(s[i].0@),
        to_map(s)[s[i].0@] == s[i].1@,
{
    lemma_index_of(s, i);
}

pub proof fn lemma_to_map_update<K: View, V: View>(s: Seq<(K, V)>, i: int, e: (K, V))
    requires
        keys_unique(s),
        0 <= i < s.len(),
        e.0@ == s[i].0@,
    ensures
        keys_unique(s.update(i, e)),
        to_map(s.update(i, e)) == to_map(s).insert(e.0@, e.1@),
{
    let t = s.update(i, e);
    assert forall|a: int, b: int| 0 <= a < t.len() && 0 <= b < t.len() && a != b implies
        #[trigger] t[a].0@ != #[trigger] t[b].0@ by {
        assert(t[a].0@ == s[a].0@);
        assert(t[b].0@ == s[b].0@);
    }
    assert forall|k: K::V| has_key(t, k) <==> has_key(s, k) by {
        if has_key(t, k) {
            let j = index_of(t, k);
            assert(s[j].0@ == k);
        }
        if has_key(s, k) {
            let j = index_of(s, k);
            assert(t[j].0@ == k);
        }
    }
    assert forall|k: K::V| #[trigger] to_map(t).dom().contains(k) implies to_map(t)[k]
        == to_map(s).insert(e.0@, e.1@)[k] by {
        let j = index_of(t, k);
        lemma_index_of(t, j);
        lemma_index_of(s, j);
    }
    assert(to_map(t) =~= to_map(s).insert(e.0@, e.1@));
}

pub proof fn lemma_to_map_push<K: View, V: View>(s: Seq<(K, V)>, e: (K, V))
    requires
        keys_unique(s),
        !has_key(s, e.0@),
    ensures
        keys_unique(s.push(e)),
        to_map(s.push(e)) == to_map(s).insert(e.0@, e.1@),
{
    let t = s.push(e);
    assert forall|a: int, b: int| 0 <= a < t.len() && 0 <= b < t.len() && a != b implies
        #[trigger] t[a].0@ != #[trigger] t[b].0@ by {
        if a == s.len() {
            assert(s[b] == t[b]);
        } else if b == s.len() {
            assert(s[a] == t[a]);
        } else {
            assert(s[a] == t[a] && s[b] == t[b]);
        }
    }
    assert forall|k: K::V| has_key(t, k) <==> (has_key(s, k) || k == e.0@) by {
        if has_key(t, k) {
            let j = index_of(t, k);
            if j < s.len() {
                assert(s[j] == t[j]);
            }
        }
        if has_key(s, k) {
            let j = index_of(s, k);
            assert(t[j] == s[j]);
        }
        if k == e.0@ {
            assert(t[s.len() as int] == e);
        }
    }
    assert forall|k: K::V| #[trigger] to_map(t).dom().contains(k) implies to_map(t)[k]
        == to_map(s).insert(e.0@, e.1@)[k] by {
        let j = index_of(t, k);
        lemma_index_of(t, j);
        if j < s.len() {
            assert(s[j] == t[j]);
            lemma_index_of(s, j);
        }
    }
    assert(to_map(t) =~= to_map(s).insert(e.0@, e.1@));
}

pub proof fn lemma_to_map_remove<K: View, V: View>(s: Seq<(K, V)>, i: int)
    requires
        keys_unique(s),
        0 <= i < s.len(),
    ensures
        keys_unique(s.remove(i)),
        to_map(s.remove(i)) == to_map(s).remove(s[i].0@),
{
    let t = s.remove(i);
    let k0 = s[i].0@;
    assert forall|a: int, b: int| 0 <= a < t.len() && 0 <= b < t.len() && a != b implies
        #[trigger] t[a].0@ != #[trigger] t[b].0@ by {
        let sa = if a < i { a } else { a + 1 };
        let sb = if b < i { b } else { b + 1 };
        assert(t[a] == s[sa]);
        assert(t[b] == s[sb]);
    }
    assert forall|k: K::V| has_key(t, k) <==> (has_key(s, k) && k != k0) by {
        if has_key(t, k) {
            let j = index_of(t, k);
            let sj = if j < i { j } else { j + 1 };
            assert(t[j] == s[sj]);
        }
        if has_key(s, k) && k != k0 {
            let j = index_of(s, k);
            if j < i {
                assert(t[j] == s[j]);
            } else {
                assert(t[j - 1] == s[j]);
            }
        }
    }
    assert forall|k: K::V| #[trigger] to_map(t).dom().contains(k) implies to_map(t)[k]
        == to_map(s).remove(k0)[k] by {
        let j = index_of(t, k);
        lemma_index_of(t, j);
        let sj = if j < i { j } else { j + 1 };
        assert(t[j] == s[sj]);
        lemma_index_of(s, sj);
    }
    assert(to_map(t) =~= to_map(s).remove(k0));
}

/// An association map from keys to values that keeps the order in which
/// keys were first inserted.
#[derive(Debug)]
pub struct LinearMap<K, V> {
    entries: Vec<(K, V)>,
}

impl<K: View, V: View> View for LinearMap<K, V> {
    type V = Map<K::V, V::V>;

    closed spec fn view(&self) -> Map<K::V, V::V> {
        to_map(self.entries@)
    }
}

impl<K: KeyEq, V: View> LinearMap<K, V> {
    /// The entries in insertion order.
    pub closed spec fn spec_entries(&self) -> Seq<(K, V)> {
        self.entries@
    }

    pub closed spec fn wf(&self) -> bool {
        keys_unique(self.entries@)
    }

    pub proof fn lemma_view(&self)
        requires
            self.wf(),
        ensures
            self@ == to_map(self.spec_entries()),
            keys_unique(self.spec_entries()),
    {
    }

    pub fn new() -> (m: Self)
        ensures
            m.wf(),
            m@ == Map::<K::V, V::V>::empty(),
            m.spec_entries() == Seq::<(K, V)>::empty(),
    {
        let m = LinearMap { entries: Vec::new() };
        assert(to_map(m.entries@) =~= Map::<K::V, V::V>::empty());
        m
    }

    pub fn len(&self) -> (n: usize)
        ensures
            n == self.spec_entries().len(),
    {
        self.entries.len()
    }

    pub fn is_empty(&self) -> (b: bool)
        requires
            self.wf(),
        ensures
            b == (self@.dom() =~= Set::<K::V>::empty()),
            b == (self.spec_entries().len() == 0),
    {
        if self.entries.len() == 0 {
            assert(self@.dom() =~= Set::<K::V>::empty());
            true
        } else {
            proof {
                lemma_to_map_index(self.entries@, 0);
            }
            false
        }
    }

    /// The key and value at position `i` of the insertion order.
    pub fn entry_at(&self, i: usize) -> (e: &(K, V))
        requires
            i < self.spec_entries().len(),
        ensures
            *e == self.spec_entries()[i as int],
    {
        &self.entries[i]
    }

    /// The position of `k` in the insertion order, if it is present.
    pub fn find(&self, k: &K) -> (r: Option<usize>)
        requires
            self.wf(),
        ensures
            match r {
                Some(i) => i < self.spec_entries().len() && self.spec_entries()[i as int].0@ == k@
                    && self@.dom().contains(k@) && self@[k@] == self.spec_entries()[i as int].1@,
                None => !self@.dom().contains(k@),
            },
    {
        let mut i: usize = 0;
        while i < self.entries.len()
            invariant
                self.wf(),
                i <= self.entries@.len(),
                forall|j: int| 0 <= j < i ==> (#[trigger] self.entries@[j]).0@ != k@,
            decreases self.entries@.len() - i,
        {
            if self.entries[i].0.key_eq(k) {
                proof {
                    lemma_to_map_index(self.entries@, i as int);
                }
                return Some(i);
            }
            i = i + 1;
        }
        None
    }

    pub fn contains_key(&self, k: &K) -> (b: bool)
        requires
            self.wf(),
        ensures
            b == self@.dom().contains(k@),
    {
        self.find(k).is_some()
    }

    pub fn get(&self, k: &K) -> (r: Option<&V>)
        requires
            self.wf(),
        ensures
            match r {
                Some(v) => self@.dom().contains(k@) && self@[k@] == v@,
                None => !self@.dom().contains(k@),
            },
    {
        match self.find(k) {
            Some(i) => Some(&self.entries[i].1),
            None => None,
        }
    }

    /// The value at position `i` of the insertion order, to change in place.
    pub fn value_mut_at(&mut self, i: usize) -> (v: &mut V)
        requires
            old(self).wf(),
            i < old(self).spec_entries().len(),
        ensures
            *v == old(self).spec_entries()[i as int].1,
            final(self).spec_entries() == old(self).spec_entries().update(
                i as int,
                (old(self).spec_entries()[i as int].0, *final(v)),
            ),
            final(self).wf(),
            final(self)@ == old(self)@.insert(old(self).spec_entries()[i as int].0@, (*final(v))@),
    {
        proof {
            let s = self.entries@;
            assert forall|v: V| #![trigger s.update(i as int, (s[i as int].0, v))]
                keys_unique(s.update(i as int, (s[i as int].0, v)))
                && to_map(s.update(i as int, (s[i as int].0, v))) == to_map(s).insert(s[i as int].0@, v@) by {
                lemma_to_map_update(s, i as int, (s[i as int].0, v));
            }
        }
        &mut self.entries[i].1
    }

    /// Replaces the value at position `i` of the insertion order.
    pub fn set_value_at(&mut self, i: usize, v: V)
        requires
            old(self).wf(),
            i < old(self).spec_entries().len(),
        ensures
            final(self).wf(),
            final(self)@ == old(self)@.insert(old(self).spec_entries()[i as int].0@, v@),
            final(self).spec_entries().len() == old(self).spec_entries().len(),
            forall|j: int| 0 <= j < final(self).spec_entries().len() ==>
                (#[trigger] final(self).spec_entries()[j]).0 == old(self).spec_entries()[j].0,
    {
        let ghost s = self.entries@;
        let (key, _) = self.entries.remove(i);
        self.entries.insert(i, (key, v));
        proof {
            assert(self.entries@ =~= s.update(i as int, (s[i as int].0, v)));
            lemma_to_map_update(s, i as int, (s[i as int].0, v));
        }
    }

    /// Inserting a key that is not present appends an entry.
    pub proof fn lemma_push_entries(&self, before: Seq<(K, V)>, k: K, v: V)
        requires
            self.spec_entries() == before.push((k, v)),
        ensures
            self.spec_entries() =~= before.push((k, v)),
    {
    }

    /// Inserts `v` under `k`, returning the value that `k` held before.
    pub fn insert(&mut self, k: K, v: V) -> (r: Option<V>)
        requires
            old(self).wf(),
        ensures
            final(self).wf(),
            final(self)@ == old(self)@.insert(k@, v@),
            match r {
                Some(o) => old(self)@.dom().contains(k@) && old(self)@[k@] == o@,
                None => !old(self)@.dom().contains(k@),
            },
            !old(self)@.dom().contains(k@) ==> final(self).spec_entries() == old(self).spec_entries().push((k, v)),
    {
        match self.find(&k) {
            Some(i) => {
                let ghost s = self.entries@;
                let (key, old_v) = self.entries.remove(i);
                self.entries.insert(i, (key, v));
                proof {
                    assert(self.entries@ =~= s.update(i as int, (s[i as int].0, v)));
                    lemma_to_map_update(s, i as int, (s[i as int].0, v));
                }
                Some(old_v)
            },
            None => {
                let ghost s = self.entries@;
                proof {
                    assert(!has_key(s, k@));
                    lemma_to_map_push(s, (k, v));
                }
                self.entries.push((k, v));
                None
            },
        }
    }

    /// Removes `k`, returning the value it held.
    pub fn remove(&mut self, k: &K) -> (r: Option<V>)
        requires
            old(self).wf(),
        ensures
            final(self).wf(),
            final(self)@ == old(self)@.remove(k@),
            old(self)@.dom().contains(k@) ==> exists|i: int| 0 <= i < old(self).spec_entries().len()
                && final(self).spec_entries() == old(self).spec_entries().remove(i)
                && old(self).spec_entries()[i].0@ == k@ && r == Some(old(self).spec_entries()[i].1),
            match r {
                Some(o) => old(self)@.dom().contains(k@) && old(self)@[k@] == o@,
                None => !old(self)@.dom().contains(k@),
            },
    {
        match self.find(k) {
            Some(i) => {
                let ghost s = self.entries@;
                let (_, old_v) = self.entries.remove(i);
                proof {
                    lemma_to_map_remove(s, i as int);
                }
                Some(old_v)
            },
            None => {
                assert(self@ =~= self@.remove(k@));
                None
            },
        }
    }
}

} // verus!
