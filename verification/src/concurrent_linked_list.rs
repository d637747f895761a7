//! A list that can only be prepended to or iterated over.
use vstd::prelude::*;

verus! {

/// A list that can only be prepended to or iterated over; iteration gives
/// the items newest first.  The items are kept oldest first.
#[derive(Clone, Debug)]
pub struct ConcurrentLinkedList<T> {
    items: Vec<T>,
}

impl<T> ConcurrentLinkedList<T> {
    /// The items, newest first.
    pub closed spec fn view(&self) -> Seq<T> {
        self.items@.reverse()
    }

    pub fn new() -> (r: Self)
        ensures
            r@ == Seq::<T>::empty(),
    {
        let r = ConcurrentLinkedList { items: Vec::new() };
        assert(r@ =~= Seq::<T>::empty());
        r
    }

    /// Add `val` at the front.
    pub fn prepend(&mut self, val: T)
        ensures
            final(self)@ == seq![val] + old(self)@,
    {
        self.items.push(val);
        assert(self@ =~= seq![val] + old(self)@);
    }

    /// The items, newest first.
    pub fn iter(&self) -> (r: Vec<&T>)
        ensures
            r@.len() == self@.len(),
            forall|i: int| 0 <= i < r@.len() ==> *(#[trigger] r@[i]) == self@[i],
    {
        let mut r: Vec<&T> = Vec::new();
        let n = self.items.len();
        let mut k: usize = n;
        while k > 0
            invariant
                k <= n,
                n == self.items@.len(),
                r@.len() == n - k,
                forall|i: int| 0 <= i < r@.len() ==> *(#[trigger] r@[i]) == self@[i],
            decreases k,
        {
            k = k - 1;
            r.push(&self.items[k]);
        }
        r
    }
}

impl<T> Default for ConcurrentLinkedList<T> {
    fn default() -> (r: Self)
        ensures
            r@ == Seq::<T>::empty(),
    {
        ConcurrentLinkedList::new()
    }
}

/// The items `vs`, prepended one after another in that order, as the list
/// holds them: the last first.
pub open spec fn newest_first<T>(vs: Seq<T>) -> Seq<T>
    decreases vs.len(),
{
    if vs.len() == 0 {
        Seq::empty()
    } else {
        seq![vs.last()] + newest_first(vs.drop_last())
    }
}

/// Prepending `vs` one after another to an empty list, each step as
/// `prepend` does it (the list states `ls`), leaves every item in the list
/// once, the most recent first.
pub proof fn law_prepends<T>(ls: Seq<Seq<T>>, vs: Seq<T>)
    requires
        ls.len() == vs.len() + 1,
        ls[0] == Seq::<T>::empty(),
        forall|k: int| 0 <= k < vs.len() ==> #[trigger] ls[k + 1] == seq![vs[k]] + ls[k],
    ensures
        ls.last() == newest_first(vs),
    decreases vs.len(),
{
    if vs.len() > 0 {
        let n = vs.len() - 1;
        let ls2 = ls.drop_last();
        let vs2 = vs.drop_last();
        assert forall|k: int| 0 <= k < vs2.len() implies #[trigger] ls2[k + 1] == seq![vs2[k]] + ls2[k] by {
            assert(ls[k + 1] == seq![vs[k]] + ls[k]);
        }
        law_prepends(ls2, vs2);
        assert(ls[n + 1] == seq![vs[n]] + ls[n]);
    }
}

} // verus!
