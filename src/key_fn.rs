//! Key functions: what turns an entry into the secondary keys it is filed under.
use vstd::prelude::*;

verus! {

/// A function from an entry `(key, value)` to the secondary keys it is indexed under.
///
/// Every closure `Fn(&K, &V) -> Vec<A>` is one.
pub(crate) trait KeyFn<K, V, A> {
    /// The function may be called on `(k, v)`, and every call there gives the same keys.
    spec fn pure_at(&self, k: K, v: V) -> bool;

    /// The secondary keys that the function gives on `(k, v)`, in order.
    spec fn spec_keys(&self, k: K, v: V) -> Seq<A>;

    fn keys(&self, k: &K, v: &V) -> (r: Vec<A>)
        requires
            self.pure_at(*k, *v),
        ensures
            r@ == self.spec_keys(*k, *v),
    ;
}

impl<K, V, A, F: Fn(&K, &V) -> Vec<A>> KeyFn<K, V, A> for F {
    open spec fn pure_at(&self, k: K, v: V) -> bool {
        &&& self.requires((&k, &v))
        &&& forall|x: Vec<A>, y: Vec<A>|
            #![trigger self.ensures((&k, &v), x), self.ensures((&k, &v), y)]
            self.ensures((&k, &v), x) && self.ensures((&k, &v), y) ==> x@ == y@
    }

    open spec fn spec_keys(&self, k: K, v: V) -> Seq<A> {
        (choose|x: Vec<A>| self.ensures((&k, &v), x))@
    }

    fn keys(&self, k: &K, v: &V) -> (r: Vec<A>) {
        let r = (self)(k, v);
        r
    }
}

/// The closure `f` may be called on every entry, and every call on one entry gives the same
/// keys.
pub open spec fn fn_is_pure<K, V, A, F: Fn(&K, &V) -> Vec<A>>(f: F) -> bool {
    forall|k: K, v: V|
        {
            &&& #[trigger] f.requires((&k, &v))
            &&& forall|x: Vec<A>, y: Vec<A>|
                #![trigger f.ensures((&k, &v), x), f.ensures((&k, &v), y)]
                f.ensures((&k, &v), x) && f.ensures((&k, &v), y) ==> x@ == y@
        }
}

/// The secondary keys that the closure `f` gives each entry, as a set.
pub open spec fn fn_keys<K, V, A, F: Fn(&K, &V) -> Vec<A>>(f: F) -> spec_fn(K, V) -> Set<A> {
    |k: K, v: V| (choose|x: Vec<A>| f.ensures((&k, &v), x))@.to_set()
}

} // verus!
