//! A list of pairs of a fixed length, searched front to back.

use vstd::prelude::*;

verus! {

/// `N` pairs of a key and a value.
pub struct StaticList<K, V, const N: usize> {
    data: [(K, V); N],
}

impl<K, V, const N: usize> StaticList<K, V, N> {
    /// The pairs, in their order.
    pub closed spec fn entries(&self) -> Seq<(K, V)> {
        self.data@
    }

    /// Whether `i` is the place of the first pair whose key `cb` accepts.
    pub open spec fn first_match<F: Fn(&K) -> bool>(&self, cb: F, i: int) -> bool {
        &&& 0 <= i < self.entries().len()
        &&& call_ensures(cb, (&self.entries()[i].0,), true)
        &&& forall|j: int| 0 <= j < i ==> call_ensures(cb, (&#[trigger] self.entries()[j].0,), false)
    }

    pub fn new(data: [(K, V); N]) -> (r: Self)
        ensures
            r.entries() == data@,
    {
        Self { data }
    }

    /// The value of the first pair whose key `cb` accepts, if there is one.
    pub fn search<F: Fn(&K) -> bool>(&self, cb: F) -> (r: Option<&V>)
        requires
            forall|i: int| 0 <= i < self.entries().len() ==> call_requires(
                cb,
                (&#[trigger] self.entries()[i].0,),
            ),
        ensures
            r.is_some() ==> exists|i: int| self.first_match(cb, i) && *r.unwrap() == self.entries()[i].1,
            r.is_none() ==> forall|i: int| 0 <= i < self.entries().len() ==> call_ensures(
                cb,
                (&#[trigger] self.entries()[i].0,),
                false,
            ),
    {
        let mut i: usize = 0;
        while i < N
            invariant
                i <= N,
                N == self.entries().len(),
                forall|j: int| 0 <= j < self.entries().len() ==> call_requires(
                    cb,
                    (&#[trigger] self.entries()[j].0,),
                ),
                forall|j: int| 0 <= j < i ==> call_ensures(
                    cb,
                    (&#[trigger] self.entries()[j].0,),
                    false,
                ),
            decreases N - i,
        {
            if cb(&self.data[i].0) {
                assert(self.first_match(cb, i as int));
                return Some(&self.data[i].1);
            }
            i += 1;
        }
        None
    }

    /// The value of the first pair whose key `cb` accepts, if there is one,
    /// to be changed in place. Nothing else of the list changes.
    pub fn search_mut<F: Fn(&K) -> bool>(&mut self, cb: F) -> (r: Option<&mut V>)
        requires
            forall|i: int| 0 <= i < old(self).entries().len() ==> call_requires(
                cb,
                (&#[trigger] old(self).entries()[i].0,),
            ),
        ensures
            r.is_some() ==> exists|i: int| old(self).first_match(cb, i) && *r.unwrap() == old(self).entries()[i].1
                && final(self).entries() == old(self).entries().update(
                i,
                (old(self).entries()[i].0, *final(r.unwrap())),
            ),
            r.is_none() ==> final(self).entries() == old(self).entries() && forall|i: int|
                0 <= i < old(self).entries().len() ==> call_ensures(
                    cb,
                    (&#[trigger] old(self).entries()[i].0,),
                    false,
                ),
    {
        let mut i: usize = 0;
        while i < N
            invariant
                i <= N,
                *self == *old(self),
                N == self.entries().len(),
                forall|j: int| 0 <= j < self.entries().len() ==> call_requires(
                    cb,
                    (&#[trigger] self.entries()[j].0,),
                ),
                forall|j: int| 0 <= j < i ==> call_ensures(
                    cb,
                    (&#[trigger] self.entries()[j].0,),
                    false,
                ),
            decreases N - i,
        {
            if cb(&self.data[i].0) {
                assert(self.first_match(cb, i as int));
                return Some(&mut self.data[i].1);
            }
            i += 1;
        }
        None
    }
}

} // verus!
