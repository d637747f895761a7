//! A map of dense integer key to value.
use vstd::prelude::*;
use std::marker::PhantomData;

verus! {

/// A key that stands for a position in a dense map.
pub trait Index: Sized {
    /// The position this key stands for.
    spec fn spec_index(&self) -> int;

    fn index(&self) -> (r: usize)
        ensures
            r == self.spec_index(),
    ;

    /// The key for position `u`.
    fn from_index(u: usize) -> (r: Self)
        requires
            u <= u32::MAX,
        ensures
            r.spec_index() == u,
    ;
}

/// A map of a dense integer key to value, implemented as a vector.
/// Effectively wraps Vec<V> to provided typed keys.
pub struct DenseMap<K, V> {
    vec: Vec<V>,
    key_type: PhantomData<K>,
}

impl<K, V> DenseMap<K, V> {
    /// The values, in key order.
    pub closed spec fn view(&self) -> Seq<V> {
        self.vec@
    }

    pub fn new() -> (r: Self)
        ensures
            r.view() == Seq::<V>::empty(),
    {
        DenseMap { vec: Vec::new(), key_type: PhantomData }
    }

    pub fn len(&self) -> (r: usize)
        ensures
            r == self.view().len(),
    {
        self.vec.len()
    }
}

impl<K, V> Default for DenseMap<K, V> {
    fn default() -> (r: Self)
        ensures
            r.view() == Seq::<V>::empty(),
    {
        DenseMap { vec: Vec::new(), key_type: PhantomData }
    }
}

impl<K: Index, V> DenseMap<K, V> {
    /// The value for `k`.
    pub fn get(&self, k: &K) -> (r: &V)
        requires
            0 <= k.spec_index() < self.view().len(),
        ensures
            *r == self.view()[k.spec_index()],
    {
        &self.vec[k.index()]
    }

    /// Replace the value for `k`.
    pub fn set(&mut self, k: &K, v: V)
        requires
            0 <= k.spec_index() < old(self).view().len(),
        ensures
            final(self).view() == old(self).view().update(k.spec_index(), v),
    {
        let i = k.index();
        self.vec.set(i, v);
    }

    /// The value for `k`, to be changed in place.
    pub fn get_mut(&mut self, k: &K) -> (r: &mut V)
        requires
            0 <= k.spec_index() < old(self).view().len(),
        ensures
            *r == old(self).view()[k.spec_index()],
            final(self).view() == old(self).view().update(k.spec_index(), *final(r)),
    {
        &mut self.vec[k.index()]
    }

    /// Replace the value for `k`, returning the previous one.
    pub fn replace(&mut self, k: &K, v: V) -> (r: V)
        requires
            0 <= k.spec_index() < old(self).view().len(),
        ensures
            final(self).view() == old(self).view().update(k.spec_index(), v),
            r == old(self).view()[k.spec_index()],
    {
        let i = k.index();
        let mut v = v;
        std::mem::swap(&mut self.vec[i], &mut v);
        v
    }

    /// The value for `k`, if `k` is in the map.
    pub fn lookup(&self, k: &K) -> (r: Option<&V>)
        ensures
            (0 <= k.spec_index() < self.view().len()) ==> r == Some(&self.view()[k.spec_index()]),
            !(0 <= k.spec_index() < self.view().len()) ==> r is None,
    {
        let i = k.index();
        if i < self.vec.len() {
            Some(&self.vec[i])
        } else {
            None
        }
    }

    /// The key the next pushed value will get.
    pub fn next_id(&self) -> (r: K)
        requires
            self.view().len() <= u32::MAX,
        ensures
            r.spec_index() == self.view().len(),
    {
        K::from_index(self.vec.len())
    }

    /// Add a value, returning its key.
    pub fn push(&mut self, val: V) -> (r: K)
        requires
            old(self).view().len() <= u32::MAX,
        ensures
            final(self).view() == old(self).view().push(val),
            r.spec_index() == old(self).view().len(),
    {
        let id = self.next_id();
        self.vec.push(val);
        id
    }

    /// All keys, in order.
    pub fn all_ids(&self) -> (r: Vec<K>)
        requires
            self.view().len() <= u32::MAX + 1,
        ensures
            r@.len() == self.view().len(),
            forall|i: int| 0 <= i < r@.len() ==> (#[trigger] r@[i]).spec_index() == i,
    {
        let mut r: Vec<K> = Vec::new();
        let mut i: usize = 0;
        while i < self.vec.len()
            invariant
                i <= self.view().len(),
                self.view().len() <= u32::MAX + 1,
                r@.len() == i,
                forall|j: int| 0 <= j < i ==> (#[trigger] r@[j]).spec_index() == j,
            decreases self.view().len() - i,
        {
            r.push(K::from_index(i));
            i = i + 1;
        }
        r
    }
}

impl<K: Index, V: Copy> DenseMap<K, V> {
    /// A map of `n` copies of `default`.
    pub fn new_sized(n: usize, default: V) -> (r: Self)
        ensures
            r.view() == Seq::new(n as nat, |i: int| default),
    {
        let mut vec: Vec<V> = Vec::new();
        let mut i: usize = 0;
        while i < n
            invariant
                i <= n,
                vec@ == Seq::new(i as nat, |j: int| default),
            decreases n - i,
        {
            vec.push(default);
            i = i + 1;
            assert(vec@ =~= Seq::new(i as nat, |j: int| default));
        }
        DenseMap { vec, key_type: PhantomData }
    }

    /// Set the value for `k`, first growing the map with `default` values
    /// when `k` is past its end.
    pub fn set_grow(&mut self, k: &K, v: V, default: V)
        requires
            0 <= k.spec_index() < usize::MAX,
        ensures
            final(self).view().len() == if k.spec_index() < old(self).view().len() {
                old(self).view().len() as int
            } else {
                k.spec_index() + 1
            },
            forall|i: int|
                0 <= i < final(self).view().len() ==> #[trigger] final(self).view()[i] == if i
                    == k.spec_index() {
                    v
                } else if i < old(self).view().len() {
                    old(self).view()[i]
                } else {
                    default
                },
    {
        let i = k.index();
        let ghost o = self.vec@;
        while self.vec.len() <= i
            invariant
                i == k.spec_index(),
                o.len() <= self.vec@.len() <= if i < o.len() {
                    o.len() as int
                } else {
                    i + 1
                },
                forall|j: int|
                    0 <= j < self.vec@.len() ==> #[trigger] self.vec@[j] == if j < o.len() {
                        o[j]
                    } else {
                        default
                    },
            decreases i + 1 - self.vec@.len(),
        {
            self.vec.push(default);
        }
        self.vec.set(i, v);
    }
}

} // verus!
