//! A map-like object for maps with few entries.
use vstd::prelude::*;
use crate::text::bytes_eq;

verus! {

/// A map-like object implemented as a list of pairs, for cases where the
/// number of entries in the map is small.  Entries keep the order in which
/// their keys were first inserted.
pub struct SmallMap<K, V>(Vec<(K, V)>);

/// Index of the first entry at or after `i` whose key is `k`, or the number
/// of entries if there is none.
pub open spec fn find_key<V>(e: Seq<(Seq<u8>, V)>, k: Seq<u8>, i: int) -> int
    decreases e.len() - i,
{
    if i < 0 || i >= e.len() {
        e.len() as int
    } else if e[i].0 == k {
        i
    } else {
        find_key(e, k, i + 1)
    }
}

/// The entries after inserting `k => v`: an existing entry for `k` gets the
/// new value in place, otherwise the pair is appended.
pub open spec fn spec_insert<V>(e: Seq<(Seq<u8>, V)>, k: Seq<u8>, v: V) -> Seq<(Seq<u8>, V)> {
    let i = find_key(e, k, 0);
    if i < e.len() {
        e.update(i, (e[i].0, v))
    } else {
        e.push((k, v))
    }
}

/// The value stored for `k`, if any.
pub open spec fn spec_get<V>(e: Seq<(Seq<u8>, V)>, k: Seq<u8>) -> Option<V> {
    let i = find_key(e, k, 0);
    if i < e.len() {
        Some(e[i].1)
    } else {
        None
    }
}

/// No key occurs twice.
pub open spec fn keys_unique<V>(e: Seq<(Seq<u8>, V)>) -> bool {
    forall|i: int, j: int| 0 <= i < j < e.len() ==> e[i].0 != e[j].0
}

/// The entries with each value replaced by its image under `f`.
pub open spec fn map_entry_values<V, W>(e: Seq<(Seq<u8>, V)>, f: spec_fn(V) -> W) -> Seq<(Seq<u8>, W)> {
    e.map_values(|p: (Seq<u8>, V)| (p.0, f(p.1)))
}

pub proof fn lemma_find_key<V>(e: Seq<(Seq<u8>, V)>, k: Seq<u8>, i: int)
    requires
        0 <= i <= e.len(),
    ensures
        i <= find_key(e, k, i) <= e.len(),
        find_key(e, k, i) < e.len() ==> e[find_key(e, k, i)].0 == k,
        forall|j: int| i <= j < find_key(e, k, i) ==> e[j].0 != k,
    decreases e.len() - i,
{
    if i < e.len() && e[i].0 != k {
        lemma_find_key(e, k, i + 1);
    }
}

proof fn lemma_find_key_map<V, W>(e: Seq<(Seq<u8>, V)>, f: spec_fn(V) -> W, k: Seq<u8>, i: int)
    requires
        0 <= i <= e.len(),
    ensures
        find_key(map_entry_values(e, f), k, i) == find_key(e, k, i),
    decreases e.len() - i,
{
    if i < e.len() && e[i].0 != k {
        lemma_find_key_map(e, f, k, i + 1);
    }
}

/// Mapping the values commutes with insertion.
pub proof fn lemma_insert_map<V, W>(e: Seq<(Seq<u8>, V)>, f: spec_fn(V) -> W, k: Seq<u8>, v: V)
    ensures
        map_entry_values(spec_insert(e, k, v), f) == spec_insert(map_entry_values(e, f), k, f(v)),
{
    lemma_find_key_map(e, f, k, 0);
    lemma_find_key(e, k, 0);
    assert(map_entry_values(spec_insert(e, k, v), f) =~= spec_insert(map_entry_values(e, f), k, f(v)));
}

/// After inserting `k => v`, `k` maps to `v` and every other key maps to
/// what it mapped to before.
pub proof fn law_get_insert<V>(e: Seq<(Seq<u8>, V)>, k: Seq<u8>, v: V, q: Seq<u8>)
    ensures
        spec_get(spec_insert(e, k, v), q) == if q == k {
            Some(v)
        } else {
            spec_get(e, q)
        },
{
    let e2 = spec_insert(e, k, v);
    lemma_find_key(e, k, 0);
    lemma_find_key(e, q, 0);
    lemma_find_key(e2, q, 0);
    let i = find_key(e, k, 0);
    assert(forall|j: int| 0 <= j < e.len() ==> #[trigger] e2[j].0 == e[j].0);
    let r = find_key(e, q, 0);
    let r2 = find_key(e2, q, 0);
    if r < r2 && r < e.len() {
        assert(e2[r].0 == q);
    }
    if r2 < r && r2 < e.len() {
        assert(e[r2].0 == q);
    }
    if i == e.len() {
        assert(e2[e.len() as int].0 == k);
    }
}

/// Inserting keeps keys unique, and afterwards the key maps to the value.
pub proof fn law_insert_keeps_keys_unique<V>(e: Seq<(Seq<u8>, V)>, k: Seq<u8>, v: V)
    requires
        keys_unique(e),
    ensures
        keys_unique(spec_insert(e, k, v)),
        spec_get(spec_insert(e, k, v), k) == Some(v),
{
    lemma_find_key(e, k, 0);
    let i = find_key(e, k, 0);
    let e2 = spec_insert(e, k, v);
    lemma_find_key(e2, k, 0);
    if i < e.len() {
        assert(e2[i].0 == k);
        assert(forall|j: int| 0 <= j < i ==> e2[j] == e[j]);
    } else {
        assert(e2[e.len() as int].0 == k);
        assert(forall|j: int| 0 <= j < e.len() ==> e2[j] == e[j]);
    }
}

impl<K, V> SmallMap<K, V> {
    /// The entries, in order.
    pub closed spec fn entries(&self) -> Seq<(K, V)> {
        self.0@
    }

    pub fn with_capacity(cap: usize) -> (r: Self)
        ensures
            r.entries() == Seq::<(K, V)>::empty(),
            r.entries().len() == 0,
    {
        SmallMap(Vec::with_capacity(cap))
    }

    pub fn new() -> (r: Self)
        ensures
            r.entries() == Seq::<(K, V)>::empty(),
            r.entries().len() == 0,
    {
        SmallMap(Vec::new())
    }

    pub fn len(&self) -> (r: usize)
        ensures
            r == self.entries().len(),
    {
        self.0.len()
    }

    /// The entry at position `i`.
    pub fn entry(&self, i: usize) -> (r: &(K, V))
        requires
            i < self.entries().len(),
        ensures
            *r == self.entries()[i as int],
    {
        &self.0[i]
    }

    /// The entries as a list of pairs.
    pub fn iter(&self) -> (r: &Vec<(K, V)>)
        ensures
            r@ == self.entries(),
    {
        &self.0
    }

    /// The entries as a list of pairs, consuming the map.
    pub fn into_iter(self) -> (r: Vec<(K, V)>)
        ensures
            r@ == self.entries(),
    {
        self.0
    }

    /// Replace the value of the entry at position `i`.
    pub fn set_value(&mut self, i: usize, v: V)
        requires
            i < old(self).entries().len(),
        ensures
            final(self).entries() == old(self).entries().update(
                i as int,
                (old(self).entries()[i as int].0, v),
            ),
    {
        let (k, _old) = self.0.remove(i);
        self.0.insert(i, (k, v));
        assert(self.0@ =~= old(self).entries().update(i as int, (old(self).entries()[i as int].0, v)));
    }

    /// The value of the entry at position `i`, to be changed in place.
    pub fn value_mut(&mut self, i: usize) -> (r: &mut V)
        requires
            i < old(self).entries().len(),
        ensures
            *r == old(self).entries()[i as int].1,
            final(self).entries() == old(self).entries().update(
                i as int,
                (old(self).entries()[i as int].0, *final(r)),
            ),
    {
        &mut self.0[i].1
    }

    /// The values, in entry order.
    pub fn values(&self) -> (r: Vec<&V>)
        ensures
            r@.len() == self.entries().len(),
            forall|i: int| 0 <= i < r@.len() ==> *r@[i] == self.entries()[i].1,
    {
        let mut r: Vec<&V> = Vec::new();
        let mut i: usize = 0;
        while i < self.0.len()
            invariant
                i <= self.entries().len(),
                r@.len() == i,
                forall|j: int| 0 <= j < i ==> *r@[j] == self.entries()[j].1,
            decreases self.entries().len() - i,
        {
            r.push(&self.0[i].1);
            i = i + 1;
        }
        r
    }
}

impl<V> SmallMap<Vec<u8>, V> {
    /// The entries with each key taken as its bytes.
    pub closed spec fn kv(&self) -> Seq<(Seq<u8>, V)> {
        self.0@.map_values(|p: (Vec<u8>, V)| (p.0@, p.1))
    }

    /// Keys and values as bytes line up with the entries.
    pub proof fn lemma_kv(&self)
        ensures
            self.kv().len() == self.entries().len(),
            forall|i: int|
                0 <= i < self.kv().len() ==> #[trigger] self.kv()[i] == (
                    self.entries()[i].0@,
                    self.entries()[i].1,
                ),
            self.entries().len() == 0 ==> self.kv() == Seq::<(Seq<u8>, V)>::empty(),
    {
        if self.entries().len() == 0 {
            assert(self.kv() =~= Seq::<(Seq<u8>, V)>::empty());
        }
    }

    /// Position of the entry for `q`, or the number of entries.
    pub fn position(&self, q: &[u8]) -> (r: usize)
        ensures
            r == find_key(self.kv(), q@, 0),
    {
        let mut i: usize = 0;
        while i < self.0.len()
            invariant
                i <= self.entries().len(),
                find_key(self.kv(), q@, 0) == find_key(self.kv(), q@, i as int),
            decreases self.entries().len() - i,
        {
            if bytes_eq(self.0[i].0.as_slice(), q) {
                return i;
            }
            i = i + 1;
        }
        i
    }

    pub fn insert(&mut self, k: Vec<u8>, v: V)
        ensures
            final(self).kv() == spec_insert(old(self).kv(), k@, v),
    {
        let ghost k0 = k@;
        let i = self.position(k.as_slice());
        proof {
            lemma_find_key(self.kv(), k0, 0);
        }
        if i < self.0.len() {
            self.set_value(i, v);
        } else {
            self.0.push((k, v));
        }
        assert(self.kv() =~= spec_insert(old(self).kv(), k0, v));
    }

    pub fn get(&self, q: &[u8]) -> (r: Option<&V>)
        ensures
            r matches Some(v) ==> spec_get(self.kv(), q@) == Some(*v),
            r is None ==> spec_get(self.kv(), q@) is None,
    {
        proof {
            lemma_find_key(self.kv(), q@, 0);
        }
        let i = self.position(q);
        if i < self.0.len() {
            Some(&self.0[i].1)
        } else {
            None
        }
    }
}

impl<K, V> Default for SmallMap<K, V> {
    fn default() -> (r: Self)
        ensures
            r.entries() == Seq::<(K, V)>::empty(),
    {
        SmallMap(Vec::new())
    }
}

} // verus!
