//! One secondary index: its key function, the index proper, and the keys assigned to each
//! entry.
use std::collections::{HashMap, HashSet};
use std::hash::Hash;
use vstd::prelude::*;
use vstd::std_specs::hash::obeys_key_model;
use crate::key_fn::{KeyFn, fn_is_pure, fn_keys};
use crate::model::{add_entry, bucket, lemma_add_entry_step};

verus! {

broadcast use vstd::std_specs::hash::group_hash_axioms;

/// A clone of a `T` equals the original.
pub open spec fn clone_is_exact<T: Clone>() -> bool {
    forall|a: T, b: T| #[trigger] call_ensures(T::clone, (&a,), b) ==> a == b
}

/// What an index needs of its primary key type `K` and secondary key type `A`: hashing and
/// equality agree with `==`, and a clone equals the original.
pub open spec fn key_types_ok<K: Clone, A: Clone>() -> bool {
    &&& obeys_key_model::<K>()
    &&& obeys_key_model::<A>()
    &&& clone_is_exact::<K>()
    &&& clone_is_exact::<A>()
}

/// The buckets of a hash-map index, each as the set of primary keys in it.
pub open spec fn buckets_view<K, A>(index: Map<A, HashSet<K>>) -> Map<A, Set<K>> {
    Map::new(|a: A| index.contains_key(a), |a: A| index[a]@)
}

#[verifier::reject_recursive_types(K)]
#[verifier::reject_recursive_types(V)]
#[verifier::reject_recursive_types(A)]
pub(crate) struct IndexState<K, V, A> {
    index_fn: Box<dyn KeyFn<K, V, A>>,
    index: HashMap<A, HashSet<K>>,
    indexed: HashMap<K, HashSet<A>>,
}

impl<K: Eq + Hash + Clone, V, A: Eq + Hash + Clone> IndexState<K, V, A> {
    /// Secondary key to the primary keys filed under it.
    pub(crate) closed spec fn forward(&self) -> Map<A, Set<K>> {
        buckets_view(self.index@)
    }

    /// Primary key to the secondary keys its latest entry was given.
    pub(crate) closed spec fn reverse(&self) -> Map<K, Set<A>> {
        Map::new(|k: K| self.indexed@.contains_key(k), |k: K| self.indexed@[k]@)
    }

    /// The secondary keys of each entry.
    pub(crate) closed spec fn secondary(&self) -> spec_fn(K, V) -> Set<A> {
        |k: K, v: V| self.index_fn.spec_keys(k, v).to_set()
    }

    pub(crate) closed spec fn wf(&self) -> bool {
        &&& key_types_ok::<K, A>()
        &&& forall|k: K, v: V| #[trigger] self.index_fn.pure_at(k, v)
    }

    pub(crate) fn empty<F: Fn(&K, &V) -> Vec<A> + 'static>(index_fn: F) -> (s: Self)
        requires
            key_types_ok::<K, A>(),
            fn_is_pure(index_fn),
        ensures
            s.wf(),
            s.forward() == Map::<A, Set<K>>::empty(),
            s.reverse() == Map::<K, Set<A>>::empty(),
            s.secondary() == fn_keys(index_fn),
    {
        let s = IndexState::new(index_fn, HashMap::new(), HashMap::new());
        assert(s.forward() =~= Map::<A, Set<K>>::empty());
        assert(s.reverse() =~= Map::<K, Set<A>>::empty());
        s
    }

    pub(crate) fn new<F: Fn(&K, &V) -> Vec<A> + 'static>(
        index_fn: F,
        index: HashMap<A, HashSet<K>>,
        indexed: HashMap<K, HashSet<A>>,
    ) -> (s: Self)
        ensures
            s.forward() == buckets_view(index@),
            s.reverse() == Map::new(|k: K| indexed@.contains_key(k), |k: K| indexed@[k]@),
            s.secondary() == fn_keys(index_fn),
            key_types_ok::<K, A>() && fn_is_pure(index_fn) ==> s.wf(),
    {
        let s = IndexState { index_fn: Box::new(index_fn), index, indexed };
        assert(s.secondary() =~= fn_keys(index_fn));
        assert forall|k: K, v: V| fn_is_pure(index_fn) implies #[trigger] s.index_fn.pure_at(
            k,
            v,
        ) by {
            assert(index_fn.requires((&k, &v)));
        }
        s
    }

    /// The index proper.
    pub(crate) fn index(&self) -> (r: &HashMap<A, HashSet<K>>)
        ensures
            buckets_view(r@) == self.forward(),
    {
        &self.index
    }

    /// Takes in the entry `(key, value)`: `key` joins the bucket of each of its secondary
    /// keys, and they replace what `key` was assigned before. Buckets that an earlier value
    /// of `key` put it in keep it.
    pub(crate) fn insert(&mut self, key: &K, value: &V)
        requires
            old(self).wf(),
        ensures
            final(self).wf(),
            final(self).secondary() == old(self).secondary(),
            final(self).forward() == add_entry(
                old(self).forward(),
                *key,
                old(self).secondary()(*key, *value),
            ),
            final(self).reverse() == old(self).reverse().insert(
                *key,
                old(self).secondary()(*key, *value),
            ),
    {
        let keys = self.index_fn.keys(key, value);
        let mut indexed_values: HashSet<A> = HashSet::new();
        let ghost fwd0 = old(self).forward();
        let mut i: usize = 0;
        assert(keys@.subrange(0, 0).to_set() =~= Set::<A>::empty());
        assert(add_entry(fwd0, *key, Set::<A>::empty()) =~= fwd0);
        while i < keys.len()
            invariant
                self.wf(),
                self.index_fn == old(self).index_fn,
                self.indexed == old(self).indexed,
                keys@ == old(self).index_fn.spec_keys(*key, *value),
                0 <= i <= keys.len(),
                indexed_values@ == keys@.subrange(0, i as int).to_set(),
                self.forward() == add_entry(fwd0, *key, keys@.subrange(0, i as int).to_set()),
            decreases keys.len() - i,
        {
            let ghost s = keys@.subrange(0, i as int).to_set();
            let ghost fwd_i = self.forward();
            let a = keys[i].clone();
            let bucket_key = keys[i].clone();
            let mut members = match self.index.remove(&keys[i]) {
                Some(b) => b,
                None => HashSet::new(),
            };
            assert(members@ == bucket(fwd_i, keys@[i as int]));
            members.insert(key.clone());
            self.index.insert(bucket_key, members);
            indexed_values.insert(a);
            proof {
                lemma_add_entry_step(fwd0, *key, s, keys@[i as int]);
                assert(keys@.subrange(0, i + 1) == keys@.subrange(0, i as int).push(keys@[i as int]));
                keys@.subrange(0, i as int).lemma_push_to_set_commute(keys@[i as int]);
                assert(self.forward() =~= fwd_i.insert(
                    keys@[i as int],
                    bucket(fwd_i, keys@[i as int]).insert(*key),
                ));
            }
            i += 1;
        }
        assert(keys@.subrange(0, keys.len() as int) == keys@);
        self.indexed.insert(key.clone(), indexed_values);
        assert(self.reverse() =~= old(self).reverse().insert(
            *key,
            old(self).secondary()(*key, *value),
        ));
    }
}

} // verus!
