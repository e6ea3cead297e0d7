//! The map and its registry of named secondary indices.
use std::collections::{HashMap, HashSet};
use std::hash::Hash;
use std::marker::PhantomData;
use vstd::prelude::*;
use crate::index_state::{IndexState, buckets_view, clone_is_exact, key_types_ok};
use crate::key_fn::{fn_is_pure, fn_keys};
use crate::model::{
    add_entry,
    buckets_stored,
    covers,
    entries_among,
    forward_of,
    reverse_of,
    lemma_add_entry_covers,
    lemma_add_entry_stored,
    lemma_add_entry_forward_of,
    lemma_forward_of_covers,
    lemma_forward_of_stored,
};

verus! {

broadcast use vstd::std_specs::hash::group_hash_axioms;

/// A map from `K` to `V` with named secondary indices over secondary keys of type `A`.
///
/// An index is made from a function that gives each entry zero or more secondary keys;
/// it files every entry's key under each of them, for the entries present when it is made
/// and for every entry inserted afterwards. An insert over an existing key leaves that key
/// in the buckets its earlier value put it in.
///
/// Indices are registered under a name and a kind, a tag that the caller gives each index
/// for the kind of its secondary keys; indices of one name and different kinds are kept
/// apart, and a handle resolves only to the index of its own name and kind. All secondary
/// keys of one map have the type `A`, which the handles fix at compile time; to index by
/// keys of several types, let `A` be an enum of them and give each its own kind. The
/// registry is a list of `(name, kind, index)` entries in which no name and kind occur
/// twice, so making an index under a name and kind already in use replaces that index.
#[verifier::reject_recursive_types(K)]
#[verifier::reject_recursive_types(V)]
#[verifier::reject_recursive_types(A)]
pub struct IndexedMap<K, V, A> {
    inner: HashMap<K, V>,
    indices: Vec<(String, u64, IndexState<K, V, A>)>,
}

/// The kind of secondary key that `add_index` files an index under.
pub const DEFAULT_KIND: u64 = 0;

/// The handle of an index, returned when the index is made. It names the index by its name
/// and the kind of its secondary keys, and fixes their type `A` at compile time.
pub struct IndexId<A> {
    name: String,
    kind: u64,
    _value: PhantomData<A>,
}

impl<A> IndexId<A> {
    /// The name of the index.
    pub closed spec fn name(&self) -> Seq<char> {
        self.name@
    }

    /// The kind of secondary key of the index.
    pub closed spec fn kind(&self) -> u64 {
        self.kind
    }
}

impl<K: Eq + Hash + Clone, V: Clone, A: Eq + Hash + Clone> View for IndexedMap<K, V, A> {
    type V = Map<K, V>;

    /// The entries of the map.
    closed spec fn view(&self) -> Map<K, V> {
        self.inner@
    }
}

impl<K: Eq + Hash + Clone, V: Clone, A: Eq + Hash + Clone> IndexedMap<K, V, A> {
    /// The registry key of the `i`-th index: its name and kind.
    closed spec fn key_at(&self, i: int) -> (Seq<char>, u64) {
        (self.indices@[i].0@, self.indices@[i].1)
    }

    /// Whether an index of the name `name` and the kind `kind` exists.
    pub closed spec fn has_index(&self, name: Seq<char>, kind: u64) -> bool {
        exists|i: int| 0 <= i < self.indices@.len() && #[trigger] self.key_at(i) == (name, kind)
    }

    closed spec fn slot(&self, name: Seq<char>, kind: u64) -> int {
        choose|i: int| 0 <= i < self.indices@.len() && #[trigger] self.key_at(i) == (name, kind)
    }

    /// The index `(name, kind)`: secondary key to the primary keys filed under it.
    pub closed spec fn forward(&self, name: Seq<char>, kind: u64) -> Map<A, Set<K>> {
        self.indices@[self.slot(name, kind)].2.forward()
    }

    /// The index `(name, kind)` from the other side: primary key to the secondary keys of
    /// its latest entry.
    pub closed spec fn reverse(&self, name: Seq<char>, kind: u64) -> Map<K, Set<A>> {
        self.indices@[self.slot(name, kind)].2.reverse()
    }

    /// The secondary keys of each entry under the function of the index `(name, kind)`.
    pub closed spec fn secondary(&self, name: Seq<char>, kind: u64) -> spec_fn(K, V) -> Set<A> {
        self.indices@[self.slot(name, kind)].2.secondary()
    }

    closed spec fn keys_distinct(&self) -> bool {
        forall|i: int, j: int|
            0 <= i < j < self.indices@.len() ==> #[trigger] self.key_at(i) != #[trigger] self.key_at(
                j,
            )
    }

    closed spec fn slot_ok(&self, i: int) -> bool {
        let s = self.indices@[i].2;
        &&& s.wf()
        &&& covers(s.secondary(), self.inner@, s.forward())
        &&& buckets_stored(s.forward(), self.inner@)
        &&& s.reverse() == reverse_of(s.secondary(), self.inner@)
    }

    /// The map is well formed: no two indices share both name and kind; each index files
    /// every entry under each of its secondary keys, has no empty bucket and no key that is
    /// not in the map, and assigns every key the secondary keys of its current value.
    pub closed spec fn wf(&self) -> bool {
        &&& key_types_ok::<K, A>()
        &&& clone_is_exact::<V>()
        &&& self.keys_distinct()
        &&& forall|i: int| 0 <= i < self.indices@.len() ==> #[trigger] self.slot_ok(i)
    }

    proof fn lemma_slot(&self, i: int)
        requires
            self.keys_distinct(),
            0 <= i < self.indices@.len(),
        ensures
            self.has_index(self.key_at(i).0, self.key_at(i).1),
            self.slot(self.key_at(i).0, self.key_at(i).1) == i,
    {
        let (n, d) = self.key_at(i);
        assert(self.key_at(i) == (n, d));
        let j = self.slot(n, d);
        assert(0 <= j < self.indices@.len() && self.key_at(j) == (n, d));
        if j < i {
            assert(self.key_at(j) != self.key_at(i));
        } else if i < j {
            assert(self.key_at(i) != self.key_at(j));
        }
    }

    /// An empty map with no index.
    pub fn new() -> (m: Self)
        requires
            key_types_ok::<K, A>(),
            clone_is_exact::<V>(),
        ensures
            m.wf(),
            m@ == Map::<K, V>::empty(),
            forall|name: Seq<char>, kind: u64| !m.has_index(name, kind),
    {
        IndexedMap { inner: HashMap::new(), indices: Vec::new() }
    }

    /// Sets `key` to `value` and files the entry in every index. Returns the value `key` had
    /// before, if any.
    pub fn insert(&mut self, key: K, value: V) -> (r: Option<V>)
        requires
            old(self).wf(),
        ensures
            final(self).wf(),
            final(self)@ == old(self)@.insert(key, value),
            match r {
                Some(v) => old(self)@.contains_key(key) && v == old(self)@[key],
                None => !old(self)@.contains_key(key),
            },
            forall|name: Seq<char>, kind: u64| #[trigger]
                final(self).has_index(name, kind) == old(self).has_index(name, kind),
            forall|name: Seq<char>, kind: u64| #[trigger]
                old(self).has_index(name, kind) ==> {
                    let sk = old(self).secondary(name, kind);
                    &&& final(self).secondary(name, kind) == sk
                    &&& final(self).forward(name, kind) == add_entry(
                        old(self).forward(name, kind),
                        key,
                        sk(key, value),
                    )
                    &&& final(self).reverse(name, kind) == old(self).reverse(name, kind).insert(
                        key,
                        sk(key, value),
                    )
                },
    {
        let mut i: usize = 0;
        assert forall|j: int| 0 <= j < self.indices@.len() implies self.indices@[j].2.wf() by {
            assert(self.slot_ok(j));
        }
        while i < self.indices.len()
            invariant
                self.inner == old(self).inner,
                self.indices@.len() == old(self).indices@.len(),
                0 <= i <= self.indices@.len(),
                forall|j: int|
                    0 <= j < self.indices@.len() ==> (#[trigger] self.indices@[j]).0 == old(
                        self,
                    ).indices@[j].0 && self.indices@[j].1 == old(self).indices@[j].1,
                forall|j: int|
                    0 <= j < self.indices@.len() ==> {
                        let s = #[trigger] self.indices@[j].2;
                        let s0 = old(self).indices@[j].2;
                        &&& s.wf()
                        &&& s.secondary() == s0.secondary()
                        &&& j < i ==> s.forward() == add_entry(
                            s0.forward(),
                            key,
                            s0.secondary()(key, value),
                        )
                        &&& j < i ==> s.reverse() == s0.reverse().insert(
                            key,
                            s0.secondary()(key, value),
                        )
                        &&& j >= i ==> s == s0
                    },
                old(self).wf(),
            decreases self.indices@.len() - i,
        {
            self.indices[i].2.insert(&key, &value);
            i += 1;
        }
        let ghost m0 = self.inner@;
        let r = self.inner.insert(key, value);
        proof {
            assert(self.keys_distinct()) by {
                assert forall|i: int, j: int|
                    0 <= i < j < self.indices@.len() implies #[trigger] self.key_at(i)
                    != #[trigger] self.key_at(j) by {
                    assert(old(self).key_at(i) != old(self).key_at(j));
                    assert(self.indices@[i].0 == old(self).indices@[i].0);
                    assert(self.indices@[j].0 == old(self).indices@[j].0);
                }
            }
            assert forall|j: int| 0 <= j < self.indices@.len() implies #[trigger] self.slot_ok(
                j,
            ) by {
                let s = self.indices@[j].2;
                let s0 = old(self).indices@[j].2;
                assert(old(self).slot_ok(j));
                lemma_add_entry_covers(s0.secondary(), m0, s0.forward(), key, value);
                lemma_add_entry_stored(s0.forward(), m0, key, value, s0.secondary()(key, value));
                assert(reverse_of(s.secondary(), self.inner@) =~= reverse_of(
                    s0.secondary(),
                    m0,
                ).insert(key, s0.secondary()(key, value)));
            }
            assert forall|name: Seq<char>, kind: u64| #[trigger]
                self.has_index(name, kind) == old(self).has_index(name, kind) by {
                if self.has_index(name, kind) {
                    let i = self.slot(name, kind);
                    assert(self.indices@[i].0 == old(self).indices@[i].0);
                    assert(old(self).key_at(i) == (name, kind));
                }
                if old(self).has_index(name, kind) {
                    let i = old(self).slot(name, kind);
                    assert(self.indices@[i].0 == old(self).indices@[i].0);
                    assert(self.key_at(i) == (name, kind));
                }
            }
            assert forall|name: Seq<char>, kind: u64| #[trigger]
                old(self).has_index(name, kind) implies {
                let sk = old(self).secondary(name, kind);
                &&& self.secondary(name, kind) == sk
                &&& self.forward(name, kind) == add_entry(
                    old(self).forward(name, kind),
                    key,
                    sk(key, value),
                )
                &&& self.reverse(name, kind) == old(self).reverse(name, kind).insert(
                    key,
                    sk(key, value),
                )
            } by {
                let i = old(self).slot(name, kind);
                old(self).lemma_slot(i);
                assert(self.indices@[i].0 == old(self).indices@[i].0);
                assert(self.key_at(i) == old(self).key_at(i));
                self.lemma_slot(i);
            }
        }
        r
    }

    /// Makes the index `name` of the default kind from `index_fn`; see `add_index_of_kind`.
    pub fn add_index<F: Fn(&K, &V) -> Vec<A> + 'static>(
        &mut self,
        name: String,
        index_fn: F,
    ) -> (id: IndexId<A>)
        requires
            old(self).wf(),
            fn_is_pure(index_fn),
        ensures
            final(self).wf(),
            final(self)@ == old(self)@,
            id.name() == name@,
            id.kind() == DEFAULT_KIND,
            final(self).has_index(name@, DEFAULT_KIND),
            final(self).secondary(name@, DEFAULT_KIND) == fn_keys(index_fn),
            final(self).forward(name@, DEFAULT_KIND) == forward_of(fn_keys(index_fn), old(self)@),
            final(self).reverse(name@, DEFAULT_KIND) == reverse_of(fn_keys(index_fn), old(self)@),
            forall|n: Seq<char>, d: u64|
                (n, d) != (name@, DEFAULT_KIND) ==> #[trigger] final(self).has_index(n, d)
                    == old(self).has_index(n, d),
            forall|n: Seq<char>, d: u64|
                (n, d) != (name@, DEFAULT_KIND) && #[trigger] old(self).has_index(n, d) ==> {
                    &&& final(self).secondary(n, d) == old(self).secondary(n, d)
                    &&& final(self).forward(n, d) == old(self).forward(n, d)
                    &&& final(self).reverse(n, d) == old(self).reverse(n, d)
                },
    {
        self.add_index_of_kind(name, DEFAULT_KIND, index_fn)
    }

    /// Makes the index `(name, kind)` from `index_fn`, filing every entry present now, and
    /// returns its handle. `kind` tells apart indices of one name whose secondary keys are
    /// of different kinds: an index of the same name and kind is replaced, and the new one
    /// is built from the entries alone; indices of other names or kinds stay as they are.
    pub fn add_index_of_kind<F: Fn(&K, &V) -> Vec<A> + 'static>(
        &mut self,
        name: String,
        kind: u64,
        index_fn: F,
    ) -> (id: IndexId<A>)
        requires
            old(self).wf(),
            fn_is_pure(index_fn),
        ensures
            final(self).wf(),
            final(self)@ == old(self)@,
            id.name() == name@,
            id.kind() == kind,
            final(self).has_index(name@, kind),
            final(self).secondary(name@, kind) == fn_keys(index_fn),
            final(self).forward(name@, kind) == forward_of(fn_keys(index_fn), old(self)@),
            final(self).reverse(name@, kind) == reverse_of(fn_keys(index_fn), old(self)@),
            forall|n: Seq<char>, d: u64|
                (n, d) != (name@, kind) ==> #[trigger] final(self).has_index(n, d)
                    == old(self).has_index(n, d),
            forall|n: Seq<char>, d: u64|
                (n, d) != (name@, kind) && #[trigger] old(self).has_index(n, d) ==> {
                    &&& final(self).secondary(n, d) == old(self).secondary(n, d)
                    &&& final(self).forward(n, d) == old(self).forward(n, d)
                    &&& final(self).reverse(n, d) == old(self).reverse(n, d)
                },
    {
        let ghost sk = fn_keys(index_fn);
        let ghost m = self.inner@;
        let mut state = IndexState::empty(index_fn);
        let ghost mut seen: Map<K, V> = Map::empty();
        let ghost v = vstd::std_specs::iter::IteratorSpec::remaining(&vstd::std_specs::hash::spec_hash_map_iter(&self.inner));
        assert(forward_of(sk, seen) =~= Map::<A, Set<K>>::empty());
        assert(reverse_of(sk, seen) =~= Map::<K, Set<A>>::empty());
        for (key, value) in it: self.inner.iter()
            invariant
                self.inner@ == m,
                it.seq() == v,
                v.no_duplicates(),
                state.wf(),
                state.secondary() == sk,
                state.forward() == forward_of(sk, seen),
                state.reverse() == reverse_of(sk, seen),
                forall|j: int| 0 <= j < it.index() ==> seen.contains_key(*(#[trigger] it.seq()[j]).0),
                forall|k: K| #[trigger]
                    seen.contains_key(k) ==> m.contains_key(k) && seen[k] == m[k] && exists|j: int|
                        0 <= j < it.index() && *it.seq()[j].0 == k,
        {
            proof {
                let idx = it.index();
                if seen.contains_key(*key) {
                    let j = choose|j: int| 0 <= j < idx && *v[j].0 == *key;
                    assert(m.contains_key(*v[j].0) && m[*v[j].0] == *v[j].1);
                    assert(m.contains_key(*v[idx].0) && m[*v[idx].0] == *v[idx].1);
                    assert(v[j] == v[idx]);
                    assert(false);
                }
                lemma_add_entry_forward_of(sk, seen, *key, *value);
            }
            state.insert(key, value);
            proof {
                assert(reverse_of(sk, seen.insert(*key, *value)) =~= reverse_of(sk, seen).insert(
                    *key,
                    sk(*key, *value),
                ));
                seen = seen.insert(*key, *value);
            }
        }
        proof {
            assert forall|k: K| m.contains_key(k) implies #[trigger] seen.contains_key(k) by {
                assert(v.contains((&k, &m[k])));
                let j = choose|j: int| 0 <= j < v.len() && v[j] == (&k, &m[k]);
                assert(seen.contains_key(*v[j].0));
            }
            assert(seen =~= m);
            lemma_forward_of_covers(sk, m);
            lemma_forward_of_stored(sk, m);
        }
        let mut pos: usize = self.indices.len();
        let mut i: usize = 0;
        while i < self.indices.len()
            invariant
                0 <= i <= self.indices@.len(),
                pos == self.indices@.len() || (pos < i && self.key_at(pos as int) == (name@, kind)),
                pos == self.indices@.len() ==> forall|j: int|
                    0 <= j < i ==> #[trigger] self.key_at(j) != (name@, kind),
            decreases self.indices@.len() - i,
        {
            if self.indices[i].1 == kind && self.indices[i].0 == name {
                pos = i;
            }
            i += 1;
        }
        let id = IndexId { name: name.clone(), kind, _value: PhantomData };
        let ghost old_indices = self.indices@;
        if pos < self.indices.len() {
            self.indices.set(pos, (name, kind, state));
        } else {
            self.indices.push((name, kind, state));
        }
        proof {
            assert(self.key_at(pos as int) == (name@, kind));
            assert(self.keys_distinct()) by {
                assert forall|i: int, j: int|
                    0 <= i < j < self.indices@.len() implies #[trigger] self.key_at(i)
                    != #[trigger] self.key_at(j) by {
                    if i != pos && j != pos {
                        assert(old(self).key_at(i) != old(self).key_at(j));
                    } else if i != pos {
                        assert(old(self).key_at(i) == self.key_at(i));
                    } else {
                        assert(old(self).key_at(j) == self.key_at(j));
                    }
                }
            }
            assert forall|j: int| 0 <= j < self.indices@.len() implies #[trigger] self.slot_ok(
                j,
            ) by {
                if j != pos {
                    assert(old(self).slot_ok(j));
                }
            }
            self.lemma_slot(pos as int);
            assert forall|n: Seq<char>, d: u64|
                (n, d) != (name@, kind) implies #[trigger] self.has_index(n, d) == old(
                self,
            ).has_index(n, d) by {
                if self.has_index(n, d) {
                    let i = self.slot(n, d);
                    assert(i != pos);
                    assert(old(self).key_at(i) == (n, d));
                }
                if old(self).has_index(n, d) {
                    let i = old(self).slot(n, d);
                    assert(i != pos);
                    assert(self.key_at(i) == (n, d));
                }
            }
            assert forall|n: Seq<char>, d: u64|
                (n, d) != (name@, kind) && #[trigger] old(self).has_index(n, d) implies {
                &&& self.secondary(n, d) == old(self).secondary(n, d)
                &&& self.forward(n, d) == old(self).forward(n, d)
                &&& self.reverse(n, d) == old(self).reverse(n, d)
            } by {
                let i = old(self).slot(n, d);
                old(self).lemma_slot(i);
                assert(i != pos);
                assert(self.key_at(i) == (n, d));
                self.lemma_slot(i);
            }
        }
        id
    }

    /// The entry of the registry named by `id` (its name and kind).
    fn get_index_state(&self, id: &IndexId<A>) -> (r: Option<&IndexState<K, V, A>>)
        requires
            self.wf(),
        ensures
            match r {
                Some(s) => self.has_index(id.name(), id.kind()) && *s == self.indices@[self.slot(id.name(), id.kind())].2,
                None => !self.has_index(id.name(), id.kind()),
            },
    {
        let mut i: usize = 0;
        while i < self.indices.len()
            invariant
                self.wf(),
                0 <= i <= self.indices@.len(),
                forall|j: int| 0 <= j < i ==> #[trigger] self.key_at(j) != (id.name(), id.kind()),
            decreases self.indices@.len() - i,
        {
            if self.indices[i].1 == id.kind && self.indices[i].0 == id.name {
                proof {
                    self.lemma_slot(i as int);
                }
                return Some(&self.indices[i].2);
            }
            i += 1;
        }
        None
    }

    /// The index named by `id` (its name and kind), as a hash map from secondary key to the set of primary keys
    /// filed under it; `None` where there is no such index.
    pub fn get_index(&self, id: &IndexId<A>) -> (r: Option<&HashMap<A, HashSet<K>>>)
        requires
            self.wf(),
        ensures
            match r {
                Some(index) => self.has_index(id.name(), id.kind()) && buckets_view(index@) == self.forward(
                    id.name(),
                    id.kind(),
                ),
                None => !self.has_index(id.name(), id.kind()),
            },
    {
        match self.get_index_state(id) {
            Some(s) => Some(s.index()),
            None => None,
        }
    }

    /// The primary keys filed under `index_key` in the index named by `id` (its name and kind); `None` where
    /// there is no such index or no such bucket.
    pub fn keys_by_index(&self, id: &IndexId<A>, index_key: &A) -> (r: Option<&HashSet<K>>)
        requires
            self.wf(),
        ensures
            match r {
                Some(keys) => {
                    &&& self.has_index(id.name(), id.kind())
                    &&& self.forward(id.name(), id.kind()).contains_key(*index_key)
                    &&& keys@ == self.forward(id.name(), id.kind())[*index_key]
                },
                None => !self.has_index(id.name(), id.kind()) || !self.forward(id.name(), id.kind()).contains_key(
                    *index_key,
                ),
            },
    {
        match self.get_index(id) {
            Some(index) => index.get(index_key),
            None => None,
        }
    }
    /// The entries whose keys are filed under `index_key` in the index named by `id` (its name and kind), each
    /// with its current value, copied out; `None` where there is no such index or no such
    /// bucket.
    pub fn filter_by_index(&self, id: &IndexId<A>, index_key: &A) -> (r: Option<HashMap<K, V>>)
        requires
            self.wf(),
        ensures
            match r {
                Some(out) => {
                    let selected = entries_among(self@, self.forward(id.name(), id.kind())[*index_key]);
                    &&& self.has_index(id.name(), id.kind())
                    &&& self.forward(id.name(), id.kind()).contains_key(*index_key)
                    &&& out@ == selected
                    &&& out@.dom() == self.forward(id.name(), id.kind())[*index_key]
                },
                None => !self.has_index(id.name(), id.kind()) || !self.forward(id.name(), id.kind()).contains_key(
                    *index_key,
                ),
            },
    {
        let keys = match self.keys_by_index(id, index_key) {
            Some(keys) => keys,
            None => {
                return None;
            },
        };
        let ghost bucket = keys@;
        let ghost selected = entries_among(self@, bucket);
        let ghost v = vstd::std_specs::iter::IteratorSpec::remaining(
            &vstd::std_specs::hash::spec_hash_keys_iter(keys),
        );
        let ghost mut done: Set<K> = Set::empty();
        assert(entries_among(self@, done) =~= Map::<K, V>::empty());
        let mut out: HashMap<K, V> = HashMap::new();
        for k in it: keys.iter()
            invariant
                self.wf(),
                it.seq() == v,
                v.unref().to_set() == bucket,
                selected == entries_among(self@, bucket),
                forall|j: int| 0 <= j < it.index() ==> done.contains(*#[trigger] v[j]),
                forall|x: K| #[trigger] done.contains(x) ==> bucket.contains(x),
                out@ == entries_among(self@, done),
        {
            proof {
                assert(v.unref().contains(*v[it.index()]));
            }
            match self.inner.get(k) {
                Some(value) => {
                    out.insert(k.clone(), value.clone());
                },
                None => {},
            }
            proof {
                done = done.insert(*k);
                assert(out@ =~= entries_among(self@, done));
            }
        }
        proof {
            assert forall|x: K| bucket.contains(x) implies #[trigger] done.contains(x) by {
                assert(v.unref().contains(x));
                let j = choose|j: int| 0 <= j < v.unref().len() && v.unref()[j] == x;
                assert(done.contains(*v[j]));
            }
            assert(done =~= bucket);
            assert(out@ =~= selected);
            assert(self.slot_ok(self.slot(id.name(), id.kind())));
            assert(out@.dom() =~= bucket);
        }
        Some(out)
    }
    /// Every entry of the map is filed in the index `(name, kind)` under each of the
    /// secondary keys that the index's function gives it, however many there are.
    pub proof fn lemma_stored_entries_indexed(&self, name: Seq<char>, kind: u64, k: K, a: A)
        requires
            self.wf(),
            self.has_index(name, kind),
            self@.contains_key(k),
            self.secondary(name, kind)(k, self@[k]).contains(a),
        ensures
            self.forward(name, kind).contains_key(a),
            self.forward(name, kind)[a].contains(k),
    {
        assert(self.slot_ok(self.slot(name, kind)));
    }

    /// Every bucket of the index `(name, kind)` holds at least one key, and only keys of
    /// the map.
    pub proof fn lemma_buckets_stored(&self, name: Seq<char>, kind: u64)
        requires
            self.wf(),
            self.has_index(name, kind),
        ensures
            buckets_stored(self.forward(name, kind), self@),
    {
        assert(self.slot_ok(self.slot(name, kind)));
    }

    /// The index `(name, kind)` assigns each key of the map exactly the secondary keys of
    /// its current value.
    pub proof fn lemma_reverse_is_current(&self, name: Seq<char>, kind: u64)
        requires
            self.wf(),
            self.has_index(name, kind),
        ensures
            self.reverse(name, kind) == reverse_of(self.secondary(name, kind), self@),
    {
        assert(self.slot_ok(self.slot(name, kind)));
    }
}

impl<K: Eq + Hash + Clone, V: Clone, A: Eq + Hash + Clone> std::ops::Deref for IndexedMap<K, V, A> {
    type Target = HashMap<K, V>;

    /// The entries, as a plain map to read from.
    fn deref(&self) -> (r: &HashMap<K, V>)
        ensures
            r@ == self@,
    {
        &self.inner
    }
}

} // verus!
