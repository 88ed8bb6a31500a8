//! Association containers keyed by node identifier.
//!
//! Graph algorithms here need maps and sets whose keys are node identifiers
//! (strings) and whose contents can be reasoned about entry by entry. Both
//! containers below keep their entries in insertion order in a vector, with
//! all keys distinct, and expose that order in their views: every operation
//! is deterministic, including the order in which entries are handed back.

use vstd::prelude::*;

verus! {

/// First index of key `k` in the entry sequence `s`, meaningful when some
/// entry carries `k`; with distinct keys it is the only such index.
pub open spec fn key_index<V>(s: Seq<(Seq<char>, V)>, k: Seq<char>) -> int {
    choose|i: int| 0 <= i < s.len() && (#[trigger] s[i]).0 == k
}

/// Does some entry of `s` carry key `k`?
pub open spec fn contains_key<V>(s: Seq<(Seq<char>, V)>, k: Seq<char>) -> bool {
    exists|i: int| 0 <= i < s.len() && (#[trigger] s[i]).0 == k
}

/// The value stored under key `k`, meaningful when `contains_key(s, k)`.
pub open spec fn value_of<V>(s: Seq<(Seq<char>, V)>, k: Seq<char>) -> V {
    s[key_index(s, k)].1
}

/// All keys of `s` are distinct.
pub open spec fn distinct_keys<V>(s: Seq<(Seq<char>, V)>) -> bool {
    forall|i: int, j: int|
        0 <= i < j < s.len() ==> (#[trigger] s[i]).0 != (#[trigger] s[j]).0
}

/// The entry sequence after storing `v` under `k`: an existing entry is
/// overwritten in place, a new key is appended at the end.
pub open spec fn entries_set<V>(s: Seq<(Seq<char>, V)>, k: Seq<char>, v: V) -> Seq<(Seq<char>, V)> {
    if contains_key(s, k) {
        s.update(key_index(s, k), (k, v))
    } else {
        s.push((k, v))
    }
}

/// With distinct keys, an entry holding `k` at position `i` is the entry
/// `key_index` points at.
pub proof fn lemma_key_index_unique<V>(s: Seq<(Seq<char>, V)>, k: Seq<char>, i: int)
    requires
        distinct_keys(s),
        0 <= i < s.len(),
        s[i].0 == k,
    ensures
        contains_key(s, k),
        key_index(s, k) == i,
{
    assert(contains_key(s, k));
    let j = key_index(s, k);
    assert(0 <= j < s.len() && s[j].0 == k);
    if i != j {
        assert(s[i].0 != s[j].0);
    }
}

/// How storing `v` under `k` changes lookups: `k` now maps to `v`, every
/// other key is untouched, and keys stay distinct.
pub proof fn lemma_entries_set<V>(s: Seq<(Seq<char>, V)>, k: Seq<char>, v: V)
    requires
        distinct_keys(s),
    ensures
        distinct_keys(entries_set(s, k, v)),
        forall|k2: Seq<char>|
            #[trigger] contains_key(entries_set(s, k, v), k2) <==> (contains_key(s, k2) || k2
                == k),
        value_of(entries_set(s, k, v), k) == v,
        forall|k2: Seq<char>|
            k2 != k && #[trigger] contains_key(s, k2) ==> value_of(entries_set(s, k, v), k2)
                == value_of(s, k2),
{
    let t = entries_set(s, k, v);
    if contains_key(s, k) {
        let i = key_index(s, k);
        assert(0 <= i < s.len() && s[i].0 == k);
        assert(t == s.update(i, (k, v)));
        assert forall|a: int, b: int|
            0 <= a < b < t.len() implies (#[trigger] t[a]).0 != (#[trigger] t[b]).0 by {
            assert(t[a].0 == s[a].0 && t[b].0 == s[b].0);
        }
        lemma_key_index_unique(t, k, i);
        assert forall|k2: Seq<char>| #[trigger] contains_key(t, k2) implies (contains_key(s, k2)
            || k2 == k) by {
            let j = key_index(t, k2);
            if j != i {
                lemma_key_index_unique(s, k2, j);
            }
        }
        assert forall|k2: Seq<char>| #[trigger] contains_key(s, k2) implies contains_key(
            t,
            k2,
        ) by {
            let j = key_index(s, k2);
            if j == i {
                assert(t[i].0 == k && k2 == k);
            } else {
                assert(t[j].0 == k2);
            }
        }
        assert forall|k2: Seq<char>|
            k2 != k && #[trigger] contains_key(s, k2) implies value_of(t, k2) == value_of(
            s,
            k2,
        ) by {
            let j = key_index(s, k2);
            assert(j != i);
            lemma_key_index_unique(t, k2, j);
        }
    } else {
        assert(t == s.push((k, v)));
        assert forall|a: int, b: int|
            0 <= a < b < t.len() implies (#[trigger] t[a]).0 != (#[trigger] t[b]).0 by {
            if b == t.len() - 1 {
                assert(t[a] == s[a]);
                assert(!contains_key(s, k));
            } else {
                assert(t[a].0 == s[a].0 && t[b].0 == s[b].0);
            }
        }
        lemma_key_index_unique(t, k, s.len() as int);
        assert forall|k2: Seq<char>| #[trigger] contains_key(t, k2) implies (contains_key(s, k2)
            || k2 == k) by {
            let j = key_index(t, k2);
            if j != s.len() {
                lemma_key_index_unique(s, k2, j);
            }
        }
        assert forall|k2: Seq<char>| #[trigger] contains_key(s, k2) implies contains_key(
            t,
            k2,
        ) by {
            let j = key_index(s, k2);
            assert(t[j].0 == k2);
        }
        assert forall|k2: Seq<char>|
            k2 != k && #[trigger] contains_key(s, k2) implies value_of(t, k2) == value_of(
            s,
            k2,
        ) by {
            let j = key_index(s, k2);
            assert(t[j] == s[j]);
            lemma_key_index_unique(t, k2, j);
        }
    }
}

/// A map from node identifier to `V`, with entries in insertion order.
pub struct NodeMap<V> {
    pub entries: Vec<(String, V)>,
}

impl<V> View for NodeMap<V> {
    type V = Seq<(Seq<char>, V)>;

    open spec fn view(&self) -> Seq<(Seq<char>, V)> {
        self.entries@.map_values(|p: (String, V)| (p.0@, p.1))
    }
}

impl<V> NodeMap<V> {
    /// The container invariant: no key occurs twice.
    pub open spec fn wf(self) -> bool {
        distinct_keys(self@)
    }

    /// The empty map.
    pub fn new() -> (r: NodeMap<V>)
        ensures
            r@ == Seq::<(Seq<char>, V)>::empty(),
            r.wf(),
    {
        NodeMap { entries: Vec::new() }
    }

    /// How many keys are stored.
    pub fn len(&self) -> (r: usize)
        ensures
            r == self@.len(),
    {
        self.entries.len()
    }

    /// Position of key `k`, if it is stored.
    pub fn find(&self, k: &String) -> (r: Option<usize>)
        requires
            self.wf(),
        ensures
            match r {
                Some(i) => i < self@.len() && self@[i as int].0 == k@ && key_index(self@, k@)
                    == i as int,
                None => !contains_key(self@, k@),
            },
    {
        let n = self.entries.len();
        let mut i: usize = 0;
        while i < n
            invariant
                self.wf(),
                n == self@.len(),
                i <= n,
                forall|j: int| 0 <= j < i ==> (#[trigger] self@[j]).0 != k@,
            decreases n - i,
        {
            if self.entries[i].0 == *k {
                proof {
                    lemma_key_index_unique(self@, k@, i as int);
                }
                return Some(i);
            }
            i += 1;
        }
        None
    }

    /// Is key `k` stored?
    pub fn contains(&self, k: &String) -> (r: bool)
        requires
            self.wf(),
        ensures
            r == contains_key(self@, k@),
    {
        self.find(k).is_some()
    }

    /// The value stored under `k`, if any.
    pub fn get(&self, k: &String) -> (r: Option<&V>)
        requires
            self.wf(),
        ensures
            match r {
                Some(v) => contains_key(self@, k@) && *v == value_of(self@, k@),
                None => !contains_key(self@, k@),
            },
    {
        match self.find(k) {
            Some(i) => Some(&self.entries[i].1),
            None => None,
        }
    }

    /// Stores `v` under `k`: overwrites an existing entry in place, appends a
    /// new key at the end.
    pub fn set(&mut self, k: &String, v: V)
        requires
            old(self).wf(),
        ensures
            final(self)@ == entries_set(old(self)@, k@, v),
            final(self).wf(),
    {
        let idx = self.find(k);
        match idx {
            Some(i) => {
                self.entries[i] = (k.clone(), v);
                proof {
                    assert(final(self)@ =~= entries_set(old(self)@, k@, v));
                }
            },
            None => {
                self.entries.push((k.clone(), v));
                proof {
                    assert(final(self)@ =~= entries_set(old(self)@, k@, v));
                    assert forall|i: int, j: int|
                        0 <= i < j < final(self)@.len() implies (#[trigger] final(self)@[i]).0 != (
                    #[trigger] final(self)@[j]).0 by {
                        if j == final(self)@.len() - 1 {
                            assert(!contains_key(old(self)@, k@));
                            assert(final(self)@[i] == old(self)@[i]);
                        }
                    }
                }
            },
        }
    }
}

/// A set of node identifiers, kept in insertion order.
pub struct NodeSet {
    pub entries: Vec<String>,
}

impl View for NodeSet {
    type V = Seq<Seq<char>>;

    open spec fn view(&self) -> Seq<Seq<char>> {
        self.entries@.map_values(|s: String| s@)
    }
}

impl NodeSet {
    /// The container invariant: no identifier occurs twice.
    pub open spec fn wf(self) -> bool {
        forall|i: int, j: int| 0 <= i < j < self@.len() ==> self@[i] != self@[j]
    }

    /// The empty set.
    pub fn new() -> (r: NodeSet)
        ensures
            r@ == Seq::<Seq<char>>::empty(),
            r.wf(),
    {
        NodeSet { entries: Vec::new() }
    }

    /// How many identifiers are stored.
    pub fn len(&self) -> (r: usize)
        ensures
            r == self@.len(),
    {
        self.entries.len()
    }

    /// Is `k` a member?
    pub fn contains(&self, k: &String) -> (r: bool)
        ensures
            r == self@.contains(k@),
    {
        let n = self.entries.len();
        let mut i: usize = 0;
        while i < n
            invariant
                n == self@.len(),
                i <= n,
                forall|j: int| 0 <= j < i ==> self@[j] != k@,
            decreases n - i,
        {
            if self.entries[i] == *k {
                assert(self@[i as int] == k@);
                return true;
            }
            i += 1;
        }
        false
    }

    /// Adds `k` if it is not yet a member; reports whether it was new.
    pub fn insert(&mut self, k: &String) -> (was_new: bool)
        requires
            old(self).wf(),
        ensures
            final(self).wf(),
            was_new == !old(self)@.contains(k@),
            final(self)@ == if old(self)@.contains(k@) {
                old(self)@
            } else {
                old(self)@.push(k@)
            },
    {
        if self.contains(k) {
            false
        } else {
            self.entries.push(k.clone());
            proof {
                assert(final(self)@ =~= old(self)@.push(k@));
            }
            true
        }
    }
}

} // verus!
