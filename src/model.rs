//! The mathematical model of a secondary index: a map from secondary key to the set of
//! primary keys filed under it.
use vstd::prelude::*;

verus! {

/// The primary keys filed under `a`, empty where `a` has no bucket.
pub open spec fn bucket<K, A>(fwd: Map<A, Set<K>>, a: A) -> Set<K> {
    if fwd.contains_key(a) {
        fwd[a]
    } else {
        Set::empty()
    }
}

/// The index after one entry is taken in: `key` joins the bucket of every secondary key in
/// `keys`, and no bucket loses a member.
pub open spec fn add_entry<K, A>(fwd: Map<A, Set<K>>, key: K, keys: Set<A>) -> Map<A, Set<K>> {
    Map::new(
        |a: A| fwd.contains_key(a) || keys.contains(a),
        |a: A|
            if keys.contains(a) {
                bucket(fwd, a).insert(key)
            } else {
                fwd[a]
            },
    )
}

/// The index of the entries of `m` built in one pass, `sk` giving the secondary keys of an
/// entry: under `a` stands every key whose entry gives `a`.
pub open spec fn forward_of<K, V, A>(sk: spec_fn(K, V) -> Set<A>, m: Map<K, V>) -> Map<
    A,
    Set<K>,
> {
    Map::new(
        |a: A| exists|k: K| m.contains_key(k) && #[trigger] sk(k, m[k]).contains(a),
        |a: A| Set::new(|k: K| m.contains_key(k) && sk(k, m[k]).contains(a)),
    )
}

/// The secondary keys assigned to each key of `m`.
pub open spec fn reverse_of<K, V, A>(sk: spec_fn(K, V) -> Set<A>, m: Map<K, V>) -> Map<K, Set<A>> {
    Map::new(|k: K| m.contains_key(k), |k: K| sk(k, m[k]))
}

/// The entries of `m` whose keys are in `keys`.
pub open spec fn entries_among<K, V>(m: Map<K, V>, keys: Set<K>) -> Map<K, V> {
    Map::new(|k: K| keys.contains(k) && m.contains_key(k), |k: K| m[k])
}

/// The index after the entries of `entries` are taken in, in order.
pub open spec fn forward_after<K, V, A>(
    sk: spec_fn(K, V) -> Set<A>,
    fwd: Map<A, Set<K>>,
    entries: Seq<(K, V)>,
) -> Map<A, Set<K>>
    decreases entries.len(),
{
    if entries.len() == 0 {
        fwd
    } else {
        let (k, v) = entries[0];
        forward_after(sk, add_entry(fwd, k, sk(k, v)), entries.drop_first())
    }
}

/// The store after the entries of `entries` are inserted, in order.
pub open spec fn store_after<K, V>(m: Map<K, V>, entries: Seq<(K, V)>) -> Map<K, V>
    decreases entries.len(),
{
    if entries.len() == 0 {
        m
    } else {
        store_after(m.insert(entries[0].0, entries[0].1), entries.drop_first())
    }
}

/// Every key of `entries` is new to `m`, and none occurs twice.
pub open spec fn fresh_entries<K, V>(m: Map<K, V>, entries: Seq<(K, V)>) -> bool {
    &&& forall|i: int| 0 <= i < entries.len() ==> !m.contains_key(#[trigger] entries[i].0)
    &&& forall|i: int, j: int|
        0 <= i < j < entries.len() ==> #[trigger] entries[i].0 != #[trigger] entries[j].0
}

/// Every entry of `m` is filed under each of its secondary keys in `fwd`.
pub open spec fn covers<K, V, A>(
    sk: spec_fn(K, V) -> Set<A>,
    m: Map<K, V>,
    fwd: Map<A, Set<K>>,
) -> bool {
    forall|k: K, a: A|
        m.contains_key(k) && #[trigger] sk(k, m[k]).contains(a) ==> fwd.contains_key(a)
            && fwd[a].contains(k)
}

/// Taking in an entry files its key in the bucket of every one of its secondary keys, and
/// leaves every key where it was filed before.
pub proof fn lemma_add_entry_files_key<K, A>(fwd: Map<A, Set<K>>, key: K, keys: Set<A>)
    ensures
        forall|a: A| #[trigger] keys.contains(a) ==> add_entry(fwd, key, keys).contains_key(a)
            && add_entry(fwd, key, keys)[a].contains(key),
        forall|a: A, k: K|
            fwd.contains_key(a) && #[trigger] fwd[a].contains(k) ==> add_entry(
                fwd,
                key,
                keys,
            ).contains_key(a) && #[trigger] add_entry(fwd, key, keys)[a].contains(k),
{
}

/// Every bucket of `fwd` holds at least one key, and only keys of `m`.
pub open spec fn buckets_stored<K, V, A>(fwd: Map<A, Set<K>>, m: Map<K, V>) -> bool {
    forall|a: A| #[trigger]
        fwd.contains_key(a) ==> fwd[a] != Set::<K>::empty() && fwd[a].subset_of(m.dom())
}

/// An index built in one pass has no empty bucket, and no key that is not in its store.
pub proof fn lemma_forward_of_stored<K, V, A>(sk: spec_fn(K, V) -> Set<A>, m: Map<K, V>)
    ensures
        buckets_stored(forward_of(sk, m), m),
{
    let fwd = forward_of(sk, m);
    assert forall|a: A| #[trigger] fwd.contains_key(a) implies fwd[a] != Set::<K>::empty()
        && fwd[a].subset_of(m.dom()) by {
        let k = choose|k: K| m.contains_key(k) && #[trigger] sk(k, m[k]).contains(a);
        assert(fwd[a].contains(k));
        assert(!Set::<K>::empty().contains(k));
    }
}

/// Taking in an entry keeps every bucket non-empty and within the keys of the store that
/// the entry is inserted into.
pub proof fn lemma_add_entry_stored<K, V, A>(
    fwd: Map<A, Set<K>>,
    m: Map<K, V>,
    k: K,
    v: V,
    keys: Set<A>,
)
    requires
        buckets_stored(fwd, m),
    ensures
        buckets_stored(add_entry(fwd, k, keys), m.insert(k, v)),
{
    let f2 = add_entry(fwd, k, keys);
    let m2 = m.insert(k, v);
    assert forall|a: A| #[trigger] f2.contains_key(a) implies f2[a] != Set::<K>::empty()
        && f2[a].subset_of(m2.dom()) by {
        if keys.contains(a) {
            assert(f2[a].contains(k));
            assert(!Set::<K>::empty().contains(k));
        }
    }
}

/// Taking in one more entry with a new key gives the one-pass index of the larger store.
pub proof fn lemma_add_entry_forward_of<K, V, A>(
    sk: spec_fn(K, V) -> Set<A>,
    m: Map<K, V>,
    k: K,
    v: V,
)
    requires
        !m.contains_key(k),
    ensures
        add_entry(forward_of(sk, m), k, sk(k, v)) == forward_of(sk, m.insert(k, v)),
{
    let lhs = add_entry(forward_of(sk, m), k, sk(k, v));
    let rhs = forward_of(sk, m.insert(k, v));
    let m2 = m.insert(k, v);
    assert forall|a: A| #[trigger] lhs.contains_key(a) == rhs.contains_key(a) by {
        if sk(k, v).contains(a) {
            assert(m2.contains_key(k) && sk(k, m2[k]).contains(a));
        }
        if rhs.contains_key(a) {
            let k2 = choose|k2: K| m2.contains_key(k2) && #[trigger] sk(k2, m2[k2]).contains(a);
            if k2 != k {
                assert(m.contains_key(k2) && sk(k2, m[k2]).contains(a));
            }
        }
        if forward_of(sk, m).contains_key(a) {
            let k2 = choose|k2: K| m.contains_key(k2) && #[trigger] sk(k2, m[k2]).contains(a);
            assert(m2.contains_key(k2) && sk(k2, m2[k2]).contains(a));
        }
    }
    assert forall|a: A| #[trigger] lhs.contains_key(a) implies lhs[a] =~= rhs[a] by {
        if forward_of(sk, m).contains_key(a) {
        }
    }
    assert(lhs =~= rhs);
}

/// An index built in one pass files every entry of its store under each of its secondary
/// keys.
pub proof fn lemma_forward_of_covers<K, V, A>(sk: spec_fn(K, V) -> Set<A>, m: Map<K, V>)
    ensures
        covers(sk, m, forward_of(sk, m)),
{
    assert forall|k: K, a: A|
        m.contains_key(k) && #[trigger] sk(k, m[k]).contains(a) implies forward_of(
        sk,
        m,
    ).contains_key(a) && forward_of(sk, m)[a].contains(k) by {}
}

/// An insert keeps every entry of the store filed under each of its secondary keys: the
/// new entry under all of its keys, the others where they were.
pub proof fn lemma_add_entry_covers<K, V, A>(
    sk: spec_fn(K, V) -> Set<A>,
    m: Map<K, V>,
    fwd: Map<A, Set<K>>,
    k: K,
    v: V,
)
    requires
        covers(sk, m, fwd),
    ensures
        covers(sk, m.insert(k, v), add_entry(fwd, k, sk(k, v))),
{
    let m2 = m.insert(k, v);
    let f2 = add_entry(fwd, k, sk(k, v));
    assert forall|k2: K, a: A|
        m2.contains_key(k2) && #[trigger] sk(k2, m2[k2]).contains(a) implies f2.contains_key(a)
        && f2[a].contains(k2) by {
        if k2 != k {
            assert(m.contains_key(k2) && sk(k2, m[k2]).contains(a));
        }
    }
}

/// One more secondary key for the same entry files `key` in one more bucket.
pub proof fn lemma_add_entry_step<K, A>(fwd: Map<A, Set<K>>, key: K, keys: Set<A>, a: A)
    ensures
        add_entry(fwd, key, keys.insert(a)) == add_entry(fwd, key, keys).insert(
            a,
            bucket(add_entry(fwd, key, keys), a).insert(key),
        ),
{
    let lhs = add_entry(fwd, key, keys.insert(a));
    let rhs = add_entry(fwd, key, keys).insert(a, bucket(add_entry(fwd, key, keys), a).insert(key));
    assert forall|b: A| #[trigger] lhs.contains_key(b) implies lhs[b] =~= rhs[b] by {}
    assert(lhs =~= rhs);
}

/// An index that is built over a store and then takes in entries with new keys as they are
/// inserted equals the index built in one pass over the resulting store.
pub proof fn lemma_backfill_then_inserts<K, V, A>(
    sk: spec_fn(K, V) -> Set<A>,
    m: Map<K, V>,
    entries: Seq<(K, V)>,
)
    requires
        fresh_entries(m, entries),
    ensures
        forward_after(sk, forward_of(sk, m), entries) == forward_of(sk, store_after(m, entries)),
    decreases entries.len(),
{
    if entries.len() > 0 {
        let (k, v) = entries[0];
        assert(!m.contains_key(entries[0].0));
        lemma_add_entry_forward_of(sk, m, k, v);
        let rest = entries.drop_first();
        let m2 = m.insert(k, v);
        assert forall|i: int| 0 <= i < rest.len() implies !m2.contains_key(#[trigger] rest[i].0) by {
            assert(rest[i] == entries[i + 1]);
            assert(!m.contains_key(entries[i + 1].0));
            assert(entries[0].0 != entries[i + 1].0);
        }
        assert forall|i: int, j: int|
            0 <= i < j < rest.len() implies #[trigger] rest[i].0 != #[trigger] rest[j].0 by {
            assert(rest[i] == entries[i + 1]);
            assert(rest[j] == entries[j + 1]);
            assert(entries[i + 1].0 != entries[j + 1].0);
        }
        lemma_backfill_then_inserts(sk, m2, rest);
    }
}

/// The index after each of a run of inserts, as each insert's contract states it, ends
/// where a one-pass index built after the run would: an index built over a store and then
/// fed entries with new keys, one by one, equals the index built afterwards over the
/// resulting store. `fwds[j]` is the index after the first `j` entries.
pub proof fn lemma_index_history<K, V, A>(
    sk: spec_fn(K, V) -> Set<A>,
    m: Map<K, V>,
    entries: Seq<(K, V)>,
    fwds: Seq<Map<A, Set<K>>>,
)
    requires
        fresh_entries(m, entries),
        fwds.len() == entries.len() + 1,
        fwds[0] == forward_of(sk, m),
        forall|j: int|
            0 <= j < entries.len() ==> #[trigger] fwds[j + 1] == add_entry(
                fwds[j],
                entries[j].0,
                sk(entries[j].0, entries[j].1),
            ),
    ensures
        fwds.last() == forward_of(sk, store_after(m, entries)),
{
    lemma_history_is_forward_after(sk, entries, fwds);
    lemma_backfill_then_inserts(sk, m, entries);
}

proof fn lemma_history_is_forward_after<K, V, A>(
    sk: spec_fn(K, V) -> Set<A>,
    entries: Seq<(K, V)>,
    fwds: Seq<Map<A, Set<K>>>,
)
    requires
        fwds.len() == entries.len() + 1,
        forall|j: int|
            0 <= j < entries.len() ==> #[trigger] fwds[j + 1] == add_entry(
                fwds[j],
                entries[j].0,
                sk(entries[j].0, entries[j].1),
            ),
    ensures
        fwds.last() == forward_after(sk, fwds[0], entries),
    decreases entries.len(),
{
    if entries.len() > 0 {
        let rest = entries.drop_first();
        let tail = fwds.drop_first();
        assert forall|j: int| 0 <= j < rest.len() implies #[trigger] tail[j + 1] == add_entry(
            tail[j],
            rest[j].0,
            sk(rest[j].0, rest[j].1),
        ) by {
            assert(fwds[(j + 1) + 1] == add_entry(
                fwds[j + 1],
                entries[j + 1].0,
                sk(entries[j + 1].0, entries[j + 1].1),
            ));
        }
        assert(fwds[0int + 1] == add_entry(fwds[0], entries[0].0, sk(entries[0].0, entries[0].1)));
        lemma_history_is_forward_after(sk, rest, tail);
    }
}

} // verus!
