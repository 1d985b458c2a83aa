//! Insertion-ordered maps and sets keyed by strings. Keys never repeat; the
//! abstract view is a `Map` (or `Set`) over the keys' characters.

use vstd::prelude::*;
use crate::text::str_eq;

verus! {

/// A map from string keys to values, kept in insertion order.
pub struct StrMap<V> {
    entries: Vec<(String, V)>,
}

/// Whether `k` occurs as a key in `s`.
pub open spec fn has_key<V>(s: Seq<(String, V)>, k: Seq<char>) -> bool {
    exists|i: int| 0 <= i < s.len() && (#[trigger] s[i]).0@ == k
}

/// No key occurs twice in `s`.
pub open spec fn unique_keys<V>(s: Seq<(String, V)>) -> bool {
    forall|i: int, j: int| 0 <= i < s.len() && 0 <= j < s.len() && i != j ==> (#[trigger] s[i]).0@ != (#[trigger] s[j]).0@
}

/// The map view of an entry sequence with unique keys.
pub open spec fn entries_map<V>(s: Seq<(String, V)>) -> Map<Seq<char>, V> {
    Map::new(
        |k: Seq<char>| has_key(s, k),
        |k: Seq<char>| s[choose|i: int| 0 <= i < s.len() && (#[trigger] s[i]).0@ == k].1,
    )
}

/// The characters of each string in `v`.
pub open spec fn str_views(v: Seq<String>) -> Seq<Seq<char>> {
    v.map_values(|k: String| k@)
}

/// The keys of an entry sequence, in order.
pub open spec fn entry_keys<V>(s: Seq<(String, V)>) -> Seq<Seq<char>> {
    s.map_values(|e: (String, V)| e.0@)
}

proof fn lemma_lookup<V>(s: Seq<(String, V)>, i: int)
    requires
        unique_keys(s),
        0 <= i < s.len(),
    ensures
        entries_map(s).contains_key(s[i].0@),
        entries_map(s)[s[i].0@] == s[i].1,
{
    let k = s[i].0@;
    assert(has_key(s, k));
    let j = choose|j: int| 0 <= j < s.len() && (#[trigger] s[j]).0@ == k;
    assert(j == i);
}

/// Whether some string of `v` holds the characters of `s`.
pub fn contains_str(v: &Vec<String>, s: &str) -> (b: bool)
    ensures
        b == str_views(v@).contains(s@),
{
    let mut i: usize = 0;
    while i < v.len()
        invariant
            i <= v@.len(),
            forall|j: int| 0 <= j < i ==> (#[trigger] v@[j])@ != s@,
        decreases v@.len() - i,
    {
        if str_eq(v[i].as_str(), s) {
            assert(str_views(v@)[i as int] == s@);
            return true;
        }
        i += 1;
    }
    proof {
        if str_views(v@).contains(s@) {
            let j = choose|j: int| 0 <= j < str_views(v@).len() && str_views(v@)[j] == s@;
            assert(v@[j]@ == s@);
        }
    }
    false
}

impl<V> StrMap<V> {
    #[verifier::type_invariant]
    spec fn inv(self) -> bool {
        unique_keys(self.entries@)
    }

    /// The abstract contents: key characters to values.
    pub closed spec fn view(&self) -> Map<Seq<char>, V> {
        entries_map(self.entries@)
    }

    /// The keys, in insertion order.
    pub closed spec fn key_seq(&self) -> Seq<Seq<char>> {
        entry_keys(self.entries@)
    }

    /// The number of entries.
    pub closed spec fn spec_len(&self) -> nat {
        self.entries@.len()
    }

    /// The keys, in insertion order; each key of the view occurs exactly once.
    pub fn keys(&self) -> (r: Vec<String>)
        ensures
            str_views(r@) == self.key_seq(),
            self.key_seq().no_duplicates(),
            forall|k: Seq<char>| #[trigger] self@.contains_key(k) <==> self.key_seq().contains(k),
    {
        proof { use_type_invariant(self); }
        let s = &self.entries;
        let mut r: Vec<String> = Vec::new();
        let mut i: usize = 0;
        while i < s.len()
            invariant
                i <= s@.len(),
                r@.len() == i,
                forall|j: int| 0 <= j < i ==> (#[trigger] r@[j])@ == s@[j].0@,
            decreases s@.len() - i,
        {
            let k = s[i].0.clone();
            assert(k@ == s@[i as int].0@);
            let ghost r0 = r@;
            r.push(k);
            proof {
                assert(r@ == r0.push(k));
            }
            i += 1;
        }
        proof {
            assert(str_views(r@) =~= entry_keys(s@));
            let ks = self.key_seq();
            assert forall|a: int, b: int| 0 <= a < ks.len() && 0 <= b < ks.len() && a != b implies ks[a] != ks[b] by {
                assert(ks[a] == s@[a].0@ && ks[b] == s@[b].0@);
            }
            assert forall|k: Seq<char>| #[trigger] self@.contains_key(k) <==> ks.contains(k) by {
                if self@.contains_key(k) {
                    let i = choose|i: int| 0 <= i < s@.len() && (#[trigger] s@[i]).0@ == k;
                    assert(ks[i] == k);
                }
                if ks.contains(k) {
                    let i = choose|i: int| 0 <= i < ks.len() && ks[i] == k;
                    assert(s@[i].0@ == k);
                    assert(has_key(s@, k));
                }
            }
        }
        r
    }

    /// The keys in insertion order are exactly the keys of the view.
    pub proof fn lemma_key_seq_dom(&self)
        ensures
            forall|k: Seq<char>| #[trigger] self@.contains_key(k) <==> self.key_seq().contains(k),
            self.key_seq().len() == self.spec_len(),
    {
        let s = self.entries@;
        let ks = self.key_seq();
        assert forall|k: Seq<char>| #[trigger] self@.contains_key(k) <==> ks.contains(k) by {
            if self@.contains_key(k) {
                let i = choose|i: int| 0 <= i < s.len() && (#[trigger] s[i]).0@ == k;
                assert(ks[i] == k);
            }
            if ks.contains(k) {
                let i = choose|i: int| 0 <= i < ks.len() && ks[i] == k;
                assert(s[i].0@ == k);
                assert(has_key(s, k));
            }
        }
    }

    /// An empty map.
    pub fn new() -> (m: Self)
        ensures
            m@ == Map::<Seq<char>, V>::empty(),
            m.key_seq() == Seq::<Seq<char>>::empty(),
    {
        let m = StrMap { entries: Vec::new() };
        assert(m@ =~= Map::<Seq<char>, V>::empty());
        assert(m.key_seq() =~= Seq::<Seq<char>>::empty());
        m
    }

    /// The number of entries.
    pub fn len(&self) -> (n: usize)
        ensures
            n == self.spec_len(),
            n == self.key_seq().len(),
    {
        self.entries.len()
    }

    /// Whether the map has no entries.
    pub fn is_empty(&self) -> (b: bool)
        ensures
            b == (self.spec_len() == 0),
    {
        self.entries.len() == 0
    }

    fn find(&self, key: &str) -> (r: Option<usize>)
        ensures
            match r {
                Some(i) => i < self.entries@.len() && self.entries@[i as int].0@ == key@,
                None => !has_key(self.entries@, key@),
            },
    {
        let mut i: usize = 0;
        while i < self.entries.len()
            invariant
                i <= self.entries@.len(),
                forall|j: int| 0 <= j < i ==> (#[trigger] self.entries@[j]).0@ != key@,
            decreases self.entries@.len() - i,
        {
            if str_eq(self.entries[i].0.as_str(), key) {
                return Some(i);
            }
            i += 1;
        }
        None
    }

    /// The value stored under `key`, if any.
    pub fn get(&self, key: &str) -> (r: Option<&V>)
        ensures
            match r {
                Some(v) => self@.contains_key(key@) && *v == self@[key@],
                None => !self@.contains_key(key@),
            },
    {
        proof { use_type_invariant(self); }
        match self.find(key) {
            Some(i) => {
                proof { lemma_lookup(self.entries@, i as int); }
                Some(&self.entries[i].1)
            },
            None => None,
        }
    }

    /// Whether `key` is present.
    pub fn contains_key(&self, key: &str) -> (b: bool)
        ensures
            b == self@.contains_key(key@),
    {
        self.find(key).is_some()
    }

    /// The key at position `i` of the insertion order.
    pub fn key_at(&self, i: usize) -> (k: &String)
        requires
            i < self.spec_len(),
        ensures
            k@ == self.key_seq()[i as int],
            self@.contains_key(k@),
    {
        proof {
            use_type_invariant(self);
            lemma_lookup(self.entries@, i as int);
        }
        &self.entries[i].0
    }

    /// The value at position `i` of the insertion order.
    pub fn value_at(&self, i: usize) -> (v: &V)
        requires
            i < self.spec_len(),
        ensures
            self@.contains_key(self.key_seq()[i as int]),
            *v == self@[self.key_seq()[i as int]],
    {
        proof {
            use_type_invariant(self);
            lemma_lookup(self.entries@, i as int);
        }
        &self.entries[i].1
    }

    /// Stores `value` under `key`, replacing any earlier value. A new key goes
    /// to the end of the insertion order; an existing key keeps its place.
    pub fn insert(&mut self, key: String, value: V)
        ensures
            final(self)@ == old(self)@.insert(key@, value),
            old(self)@.contains_key(key@) ==> final(self).key_seq() == old(self).key_seq(),
            !old(self)@.contains_key(key@) ==> final(self).key_seq() == old(self).key_seq().push(key@),
    {
        proof { use_type_invariant(&*self); }
        let ghost old_entries = self.entries@;
        let ghost k = key@;
        match self.find(key.as_str()) {
            Some(i) => {
                let ghost e = (key, value);
                let mut es: Vec<(String, V)> = Vec::new();
                std::mem::swap(&mut es, &mut self.entries);
                es.set(i, (key, value));
                proof {
                    let s = es@;
                    assert(s == old_entries.update(i as int, e));
                    assert(unique_keys(s)) by {
                        assert forall|a: int, b: int| 0 <= a < s.len() && 0 <= b < s.len() && a != b implies (#[trigger] s[a]).0@ != (#[trigger] s[b]).0@ by {
                            if a != i && b != i {
                                assert(s[a] == old_entries[a] && s[b] == old_entries[b]);
                            } else if a == i {
                                assert(s[b] == old_entries[b]);
                                assert(old_entries[b].0@ != old_entries[i as int].0@);
                            } else {
                                assert(s[a] == old_entries[a]);
                                assert(old_entries[a].0@ != old_entries[i as int].0@);
                            }
                        }
                    }
                    lemma_lookup(old_entries, i as int);
                    assert forall|kk: Seq<char>| #[trigger] has_key(s, kk) == has_key(old_entries, kk) by {
                        if has_key(s, kk) {
                            let a = choose|a: int| 0 <= a < s.len() && (#[trigger] s[a]).0@ == kk;
                            if a == i { assert(old_entries[a].0@ == kk); } else { assert(old_entries[a] == s[a]); }
                        }
                        if has_key(old_entries, kk) {
                            let a = choose|a: int| 0 <= a < old_entries.len() && (#[trigger] old_entries[a]).0@ == kk;
                            if a == i { assert(s[a].0@ == kk); } else { assert(old_entries[a] == s[a]); }
                        }
                    }
                    assert forall|kk: Seq<char>| #[trigger] entries_map(s).contains_key(kk) implies entries_map(s)[kk] == old_entries_map_insert(old_entries, k, e.1)[kk] by {
                        let a = choose|a: int| 0 <= a < s.len() && (#[trigger] s[a]).0@ == kk;
                        lemma_lookup(s, a);
                        if a != i {
                            assert(s[a] == old_entries[a]);
                            lemma_lookup(old_entries, a);
                        }
                    }
                    assert(entries_map(s) =~= entries_map(old_entries).insert(k, e.1));
                    assert(entry_keys(s) =~= entry_keys(old_entries));
                }
                self.entries = es;
            },
            None => {
                let ghost e = (key, value);
                let mut es: Vec<(String, V)> = Vec::new();
                std::mem::swap(&mut es, &mut self.entries);
                es.push((key, value));
                proof {
                    let s = es@;
                    assert(s == old_entries.push(e));
                    assert(unique_keys(s)) by {
                        assert forall|a: int, b: int| 0 <= a < s.len() && 0 <= b < s.len() && a != b implies (#[trigger] s[a]).0@ != (#[trigger] s[b]).0@ by {
                            if a < old_entries.len() && b < old_entries.len() {
                                assert(s[a] == old_entries[a] && s[b] == old_entries[b]);
                            } else if a < old_entries.len() {
                                assert(s[a] == old_entries[a]);
                                if s[a].0@ == k { assert(has_key(old_entries, k)); }
                            } else {
                                assert(s[b] == old_entries[b]);
                                if s[b].0@ == k { assert(has_key(old_entries, k)); }
                            }
                        }
                    }
                    assert forall|kk: Seq<char>| #[trigger] has_key(s, kk) == (has_key(old_entries, kk) || kk == k) by {
                        if has_key(s, kk) {
                            let a = choose|a: int| 0 <= a < s.len() && (#[trigger] s[a]).0@ == kk;
                            if a < old_entries.len() { assert(old_entries[a] == s[a]); }
                        }
                        if has_key(old_entries, kk) {
                            let a = choose|a: int| 0 <= a < old_entries.len() && (#[trigger] old_entries[a]).0@ == kk;
                            assert(old_entries[a] == s[a]);
                        }
                        if kk == k {
                            assert(s[old_entries.len() as int].0@ == kk);
                        }
                    }
                    assert forall|kk: Seq<char>| #[trigger] entries_map(s).contains_key(kk) implies entries_map(s)[kk] == old_entries_map_insert(old_entries, k, e.1)[kk] by {
                        let a = choose|a: int| 0 <= a < s.len() && (#[trigger] s[a]).0@ == kk;
                        lemma_lookup(s, a);
                        if a < old_entries.len() {
                            assert(s[a] == old_entries[a]);
                            lemma_lookup(old_entries, a);
                        }
                    }
                    assert(entries_map(s) =~= entries_map(old_entries).insert(k, e.1));
                    assert(entry_keys(s) =~= entry_keys(old_entries).push(k));
                }
                self.entries = es;
            },
        }
    }

    /// Removes `key` and returns its value, if it was present. The other keys keep their order.
    pub fn remove(&mut self, key: &str) -> (r: Option<V>)
        ensures
            final(self)@ == old(self)@.remove(key@),
            match r {
                Some(v) => old(self)@.contains_key(key@) && v == old(self)@[key@],
                None => !old(self)@.contains_key(key@),
            },
    {
        proof { use_type_invariant(&*self); }
        let ghost old_entries = self.entries@;
        match self.find(key) {
            Some(i) => {
                proof { lemma_lookup(old_entries, i as int); }
                let mut es: Vec<(String, V)> = Vec::new();
                std::mem::swap(&mut es, &mut self.entries);
                let e = es.remove(i);
                proof {
                    let s = es@;
                    assert(s == old_entries.remove(i as int));
                    assert forall|a: int| 0 <= a < s.len() implies #[trigger] s[a] == old_entries[if a < i { a } else { a + 1 }] by {}
                    assert(unique_keys(s)) by {
                        assert forall|a: int, b: int| 0 <= a < s.len() && 0 <= b < s.len() && a != b implies (#[trigger] s[a]).0@ != (#[trigger] s[b]).0@ by {
                            let a2 = if a < i { a } else { a + 1 };
                            let b2 = if b < i { b } else { b + 1 };
                            assert(s[a] == old_entries[a2] && s[b] == old_entries[b2]);
                        }
                    }
                    assert forall|kk: Seq<char>| #[trigger] has_key(s, kk) == (has_key(old_entries, kk) && kk != key@) by {
                        if has_key(s, kk) {
                            let a = choose|a: int| 0 <= a < s.len() && (#[trigger] s[a]).0@ == kk;
                            let a2 = if a < i { a } else { a + 1 };
                            assert(s[a] == old_entries[a2]);
                        }
                        if has_key(old_entries, kk) && kk != key@ {
                            let a = choose|a: int| 0 <= a < old_entries.len() && (#[trigger] old_entries[a]).0@ == kk;
                            assert(a != i);
                            let a2 = if a < i { a } else { a - 1 };
                            assert(s[a2] == old_entries[a]);
                        }
                    }
                    assert forall|kk: Seq<char>| #[trigger] entries_map(s).contains_key(kk) implies entries_map(s)[kk] == entries_map(old_entries)[kk] by {
                        let a = choose|a: int| 0 <= a < s.len() && (#[trigger] s[a]).0@ == kk;
                        lemma_lookup(s, a);
                        let a2 = if a < i { a } else { a + 1 };
                        assert(s[a] == old_entries[a2]);
                        lemma_lookup(old_entries, a2);
                    }
                    assert(entries_map(s) =~= entries_map(old_entries).remove(key@));
                }
                self.entries = es;
                Some(e.1)
            },
            None => {
                assert(entries_map(old_entries) =~= entries_map(old_entries).remove(key@));
                None
            },
        }
    }
}

/// The view of `s` with `k` bound to `v`.
pub open spec fn old_entries_map_insert<V>(s: Seq<(String, V)>, k: Seq<char>, v: V) -> Map<Seq<char>, V> {
    entries_map(s).insert(k, v)
}

} // verus!

verus! {

/// A set of strings, kept in insertion order.
pub struct StrSet {
    map: StrMap<()>,
}

impl StrSet {
    /// The abstract contents.
    pub closed spec fn view(&self) -> Set<Seq<char>> {
        self.map@.dom()
    }

    /// An empty set.
    pub fn new() -> (s: Self)
        ensures
            s@ == Set::<Seq<char>>::empty(),
    {
        let s = StrSet { map: StrMap::new() };
        assert(s@ =~= Set::<Seq<char>>::empty());
        s
    }

    /// Whether `key` is a member.
    pub fn contains(&self, key: &str) -> (b: bool)
        ensures
            b == self@.contains(key@),
    {
        self.map.contains_key(key)
    }

    /// Adds `key`; returns whether it was absent before.
    pub fn insert(&mut self, key: String) -> (added: bool)
        ensures
            final(self)@ == old(self)@.insert(key@),
            added == !old(self)@.contains(key@),
    {
        let added = !self.map.contains_key(key.as_str());
        self.map.insert(key, ());
        assert(self@ =~= old(self)@.insert(key@));
        added
    }

    /// Removes `key`; returns whether it was present.
    pub fn remove(&mut self, key: &str) -> (removed: bool)
        ensures
            final(self)@ == old(self)@.remove(key@),
            removed == old(self)@.contains(key@),
    {
        let r = self.map.remove(key);
        assert(self@ =~= old(self)@.remove(key@));
        r.is_some()
    }

    /// The members, in insertion order, each once.
    pub fn to_vec(&self) -> (r: Vec<String>)
        ensures
            str_views(r@).no_duplicates(),
            forall|k: Seq<char>| #[trigger] self@.contains(k) <==> str_views(r@).contains(k),
    {
        self.map.keys()
    }

    /// The number of members.
    pub fn len(&self) -> (n: usize)
        ensures
            n == self@.len(),
    {
        let ks = self.map.keys();
        proof {
            let s = str_views(ks@);
            s.unique_seq_to_set();
            assert(s.to_set() =~= self@);
        }
        self.map.len()
    }
}

} // verus!
