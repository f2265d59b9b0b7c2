use vstd::prelude::*;

use crate::strutil::str_eq;

verus! {

/// A mapping from string keys to values that keeps its entries in insertion
/// order. Inserting an existing key replaces the value in place; a new key
/// goes to the end.
pub struct OrdMap<V> {
    entries: Vec<(String, V)>,
}

impl<V> OrdMap<V> {
    /// The entries, in order.
    pub closed spec fn entries_view(self) -> Seq<(String, V)> {
        self.entries@
    }

    /// The keys, in order, as character sequences.
    pub open spec fn keys(self) -> Seq<Seq<char>> {
        self.entries_view().map_values(|e: (String, V)| e.0@)
    }

    /// The values, in order.
    pub open spec fn values(self) -> Seq<V> {
        self.entries_view().map_values(|e: (String, V)| e.1)
    }

    /// The number of entries.
    pub open spec fn spec_len(self) -> nat {
        self.entries_view().len()
    }

    /// No two entries share a key.
    pub open spec fn wf(self) -> bool {
        forall|i: int, j: int|
            0 <= i < j < self.keys().len() ==> #[trigger] self.keys()[i] != #[trigger] self.keys()[j]
    }

    /// Whether some entry has the key `k`.
    pub open spec fn contains_key(self, k: Seq<char>) -> bool {
        exists|i: int| 0 <= i < self.keys().len() && #[trigger] self.keys()[i] == k
    }

    /// The position of the entry with key `k`.
    pub open spec fn key_index(self, k: Seq<char>) -> int {
        choose|i: int| 0 <= i < self.keys().len() && #[trigger] self.keys()[i] == k
    }

    /// The value at key `k`, if any.
    pub open spec fn spec_get(self, k: Seq<char>) -> Option<V> {
        if self.contains_key(k) {
            Some(self.values()[self.key_index(k)])
        } else {
            None
        }
    }

    /// An empty map.
    pub fn new() -> (r: OrdMap<V>)
        ensures
            r.spec_len() == 0,
            r.wf(),
            forall|k: Seq<char>| !r.contains_key(k),
    {
        OrdMap { entries: Vec::new() }
    }

    /// The number of entries.
    pub fn len(&self) -> (n: usize)
        ensures
            n == self.spec_len(),
    {
        self.entries.len()
    }

    /// The key of the entry at position `i`.
    pub fn key_at(&self, i: usize) -> (r: &str)
        requires
            i < self.spec_len(),
        ensures
            r@ == self.keys()[i as int],
    {
        self.entries[i].0.as_str()
    }

    /// The value of the entry at position `i`.
    pub fn value_at(&self, i: usize) -> (r: &V)
        requires
            i < self.spec_len(),
        ensures
            *r == self.values()[i as int],
    {
        &self.entries[i].1
    }

    /// The position of the entry with key `key`, if any.
    fn find(&self, key: &str) -> (r: Option<usize>)
        requires
            self.wf(),
        ensures
            match r {
                Some(i) => {
                    &&& i < self.spec_len()
                    &&& self.keys()[i as int] == key@
                    &&& self.contains_key(key@)
                    &&& i == self.key_index(key@)
                },
                None => !self.contains_key(key@),
            },
    {
        let mut i: usize = 0;
        while i < self.entries.len()
            invariant
                self.wf(),
                i <= self.spec_len(),
                forall|j: int| 0 <= j < i ==> #[trigger] self.keys()[j] != key@,
            decreases self.spec_len() - i,
        {
            if str_eq(self.entries[i].0.as_str(), key) {
                proof {
                    assert(self.keys()[i as int] == key@);
                    let w = self.key_index(key@);
                    assert(0 <= w < self.keys().len() && self.keys()[w] == key@);
                    if w != i {
                        assert(self.keys()[w] != self.keys()[i as int]);
                    }
                }
                return Some(i);
            }
            i = i + 1;
        }
        None
    }

    /// The value at key `key`, if any.
    pub fn get(&self, key: &str) -> (r: Option<&V>)
        requires
            self.wf(),
        ensures
            match r {
                Some(v) => self.spec_get(key@) == Some(*v),
                None => self.spec_get(key@) is None,
            },
    {
        match self.find(key) {
            Some(i) => Some(&self.entries[i].1),
            None => None,
        }
    }

    /// Whether the map has an entry with key `key`.
    pub fn has_key(&self, key: &str) -> (r: bool)
        requires
            self.wf(),
        ensures
            r == self.contains_key(key@),
    {
        match self.find(key) {
            Some(_) => true,
            None => false,
        }
    }

    /// Binds `key` to `value`: an existing entry keeps its position, a new
    /// key is appended.
    pub fn insert(&mut self, key: String, value: V)
        requires
            old(self).wf(),
        ensures
            final(self).wf(),
            final(self).spec_get(key@) == Some(value),
            forall|k: Seq<char>|
                k != key@ ==> #[trigger] final(self).spec_get(k) == old(self).spec_get(k),
            old(self).contains_key(key@) ==> {
                &&& final(self).keys() == old(self).keys()
                &&& final(self).values() == old(self).values().update(
                    old(self).key_index(key@),
                    value,
                )
            },
            !old(self).contains_key(key@) ==> {
                &&& final(self).keys() == old(self).keys().push(key@)
                &&& final(self).values() == old(self).values().push(value)
            },
    {
        let found = self.find(key.as_str());
        match found {
            Some(i) => {
                let ghost pre = *self;
                self.entries.remove(i);
                self.entries.insert(i, (key, value));
                proof {
                    assert(self.entries@ =~= pre.entries@.update(i as int, (key, value)));
                    assert(self.keys() =~= pre.keys());
                    assert(self.values() =~= pre.values().update(i as int, value));
                    assert(self.keys()[i as int] == key@);
                    lemma_get_after_update::<V>(pre, *self, key@, i as int, value);
                }
            },
            None => {
                let ghost pre = *self;
                self.entries.push((key, value));
                proof {
                    assert(self.keys() =~= pre.keys().push(key@));
                    assert(self.values() =~= pre.values().push(value));
                    assert forall|i: int, j: int| 0 <= i < j < self.keys().len() implies #[trigger] self
                        .keys()[i] != #[trigger] self.keys()[j] by {
                        if j == self.keys().len() - 1 {
                            assert(self.keys()[i] == pre.keys()[i]);
                            assert(!pre.contains_key(key@));
                        }
                    }
                    assert(self.keys()[self.keys().len() - 1] == key@);
                    lemma_get_after_push::<V>(pre, *self, key@, value);
                }
            },
        }
    }
}

/// After replacing the value at the unique position of `key`, lookups of
/// `key` see the new value and lookups of every other key are unchanged.
proof fn lemma_get_after_update<V>(pre: OrdMap<V>, post: OrdMap<V>, key: Seq<char>, i: int, value: V)
    requires
        pre.wf(),
        0 <= i < pre.keys().len(),
        pre.keys()[i] == key,
        post.keys() == pre.keys(),
        post.values() == pre.values().update(i, value),
    ensures
        post.wf(),
        post.spec_get(key) == Some(value),
        forall|k: Seq<char>| k != key ==> #[trigger] post.spec_get(k) == pre.spec_get(k),
{
    assert(post.contains_key(key));
    assert(post.key_index(key) == i) by {
        let w = post.key_index(key);
        assert(0 <= w < post.keys().len() && post.keys()[w] == key);
        if w != i {
            assert(post.keys()[w] != post.keys()[i]);
        }
    }
    assert forall|k: Seq<char>| k != key implies #[trigger] post.spec_get(k) == pre.spec_get(k) by {
        if pre.contains_key(k) {
            let w = pre.key_index(k);
            assert(post.keys()[w] == k);
            assert(post.contains_key(k));
            let w2 = post.key_index(k);
            if w2 != w {
                assert(post.keys()[w2] != post.keys()[w]);
            }
            assert(w != i);
        } else {
            assert(!post.contains_key(k));
        }
    }
}

/// After appending a fresh `key`, lookups of `key` see the new value and
/// lookups of every other key are unchanged.
proof fn lemma_get_after_push<V>(pre: OrdMap<V>, post: OrdMap<V>, key: Seq<char>, value: V)
    requires
        pre.wf(),
        !pre.contains_key(key),
        post.keys() == pre.keys().push(key),
        post.values() == pre.values().push(value),
        post.wf(),
    ensures
        post.spec_get(key) == Some(value),
        forall|k: Seq<char>| k != key ==> #[trigger] post.spec_get(k) == pre.spec_get(k),
{
    let n = pre.keys().len() as int;
    assert(post.keys()[n] == key);
    assert(post.contains_key(key));
    assert(post.key_index(key) == n) by {
        let w = post.key_index(key);
        assert(0 <= w < post.keys().len() && post.keys()[w] == key);
        if w != n {
            assert(post.keys()[w] != post.keys()[n]);
        }
    }
    assert forall|k: Seq<char>| k != key implies #[trigger] post.spec_get(k) == pre.spec_get(k) by {
        if pre.contains_key(k) {
            let w = pre.key_index(k);
            assert(post.keys()[w] == k);
            assert(post.contains_key(k));
            let w2 = post.key_index(k);
            if w2 != w {
                assert(post.keys()[w2] != post.keys()[w]);
            }
        } else {
            if post.contains_key(k) {
                let w = post.key_index(k);
                assert(post.keys()[w] == k);
                if w < n {
                    assert(pre.keys()[w] == k);
                }
            }
        }
    }
}

} // verus!
