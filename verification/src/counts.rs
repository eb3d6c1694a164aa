//! Counts by collection and path.
use crate::model::with_count;
use crate::records::Text;
use vstd::prelude::*;

verus! {

/// Values, each under a name of its own.
#[derive(Debug, PartialEq, Eq)]
pub struct Named<T>(pub Vec<(String, T)>);

impl<T> Named<T> {
    /// Whether the entry `i` has the name `name`.
    pub open spec fn is_at(&self, name: Text, i: int) -> bool {
        0 <= i < self.0@.len() && self.0@[i].0@ == name
    }

    pub open spec fn has(&self, name: Text) -> bool {
        exists|i: int| self.is_at(name, i)
    }

    /// The place of a name.
    pub open spec fn place(&self, name: Text) -> int {
        choose|i: int| self.is_at(name, i)
    }

    /// No name comes twice.
    pub open spec fn wf(&self) -> bool {
        forall|i: int, j: int|
            0 <= i < j < self.0@.len() ==> (#[trigger] self.0@[i]).0@ != (#[trigger] self.0@[j]).0@
    }

    /// What stands under each name.
    pub open spec fn map(&self) -> Map<Text, T> {
        Map::new(|name: Text| self.has(name), |name: Text| self.0@[self.place(name)].1)
    }

    pub fn new() -> (r: Self)
        ensures
            r.wf(),
            r.map() == Map::<Text, T>::empty(),
    {
        let r = Named(Vec::new());
        assert(r.map() =~= Map::<Text, T>::empty());
        r
    }

    /// The place of a name, if it is there.
    pub fn find(&self, name: &String) -> (r: Option<usize>)
        ensures
            match r {
                Some(i) => self.is_at(name@, i as int),
                None => !self.has(name@),
            },
    {
        let mut i: usize = 0;
        while i < self.0.len()
            invariant
                i <= self.0.len(),
                forall|j: int| 0 <= j < i ==> !self.is_at(name@, j),
            decreases self.0.len() - i,
        {
            if self.0[i].0 == *name {
                return Some(i);
            }
            i += 1;
        }
        None
    }

    /// Puts a value under a name, in place of the one that was there.
    pub fn set(&mut self, name: String, value: T)
        requires
            old(self).wf(),
        ensures
            final(self).wf(),
            final(self).map() == old(self).map().insert(name@, value),
    {
        match self.find(&name) {
            Some(i) => {
                let ghost n = name@;
                self.0.set(i, (name, value));
                proof {
                    assert(forall|k: Text, j: int| self.is_at(k, j) == old(self).is_at(k, j));
                    assert forall|k: Text| self.has(k) == old(self).has(k) by {
                        if self.has(k) {
                            assert(old(self).is_at(k, self.place(k)));
                        }
                        if old(self).has(k) {
                            assert(self.is_at(k, old(self).place(k)));
                        }
                    }
                    assert(self.is_at(n, i as int));
                    assert forall|k: Text| self.has(k) implies self.0@[self.place(k)].1 == (if k
                        == n {
                        value
                    } else {
                        old(self).0@[old(self).place(k)].1
                    }) by {
                        let p = self.place(k);
                        assert(self.is_at(k, p));
                        assert(old(self).is_at(k, p));
                        assert(old(self).is_at(k, old(self).place(k)));
                        assert(p == old(self).place(k));
                    }
                    assert(self.map() =~= old(self).map().insert(n, value));
                }
            },
            None => {
                self.push_new(name, value);
            },
        }
    }

    /// Puts a value under a new name.
    pub fn push_new(&mut self, name: String, value: T)
        requires
            old(self).wf(),
            !old(self).has(name@),
        ensures
            final(self).wf(),
            final(self).0@ == old(self).0@.push((name, value)),
            final(self).map() == old(self).map().insert(name@, value),
    {
        let ghost n = name@;
        let ghost len = self.0@.len() as int;
        self.0.push((name, value));
        proof {
            assert(self.is_at(n, len));
            assert forall|k: Text, j: int| self.is_at(k, j) == (old(self).is_at(k, j) || (k
                == n && j == len)) by {}
            assert forall|i: int| 0 <= i < len implies (#[trigger] old(self).0@[i]).0@
                != n by {
                assert(!old(self).is_at(n, i));
            }
            assert forall|i: int, j: int| 0 <= i < j < self.0@.len() implies (
            #[trigger] self.0@[i]).0@ != (#[trigger] self.0@[j]).0@ by {
                assert(self.0@[i] == old(self).0@[i]);
                if j < len {
                    assert(self.0@[j] == old(self).0@[j]);
                }
            }
            assert forall|k: Text| self.has(k) == (old(self).has(k) || k == n) by {
                if self.has(k) && k != n {
                    assert(old(self).is_at(k, self.place(k)));
                }
                if old(self).has(k) {
                    assert(self.is_at(k, old(self).place(k)));
                }
            }
            assert forall|k: Text| self.has(k) implies self.0@[self.place(k)].1 == (if k
                == n {
                value
            } else {
                old(self).0@[old(self).place(k)].1
            }) by {
                let p = self.place(k);
                assert(self.is_at(k, p));
                if k != n {
                    assert(old(self).is_at(k, p));
                    assert(old(self).is_at(k, old(self).place(k)));
                    assert(p == old(self).place(k));
                }
            }
            assert(self.map() =~= old(self).map().insert(n, value));
        }
    }
}

/// Numbers by collection and path.
#[derive(Debug, PartialEq, Eq)]
pub struct Counts(pub Named<Named<u64>>);

impl View for Counts {
    type V = Map<Text, Map<Text, u64>>;

    open spec fn view(&self) -> Map<Text, Map<Text, u64>> {
        self.0.map().map_values(|paths: Named<u64>| paths.map())
    }
}

impl Counts {
    /// No collection comes twice, and no path comes twice in a collection.
    pub open spec fn wf(&self) -> bool {
        &&& self.0.wf()
        &&& forall|i: int| 0 <= i < self.0.0@.len() ==> (#[trigger] self.0.0@[i]).1.wf()
    }

    pub fn new() -> (r: Self)
        ensures
            r.wf(),
            r@ == Map::<Text, Map<Text, u64>>::empty(),
    {
        let r = Counts(Named::new());
        assert(r@ =~= Map::<Text, Map<Text, u64>>::empty());
        assert(r.0.0@.len() == 0) by {
            if r.0.0@.len() > 0 {
                assert(r.0.is_at(r.0.0@[0].0@, 0));
                assert(r.0.map().contains_key(r.0.0@[0].0@));
            }
        }
        r
    }

    /// The number for a path of a collection is `n`.
    pub fn insert(&mut self, collection: String, path: String, n: u64)
        requires
            old(self).wf(),
        ensures
            final(self).wf(),
            final(self)@ == with_count(old(self)@, collection@, path@, n),
    {
        match self.0.find(&collection) {
            Some(i) => {
                let ghost before = *self;
                self.0.0[i].1.set(path, n);
                proof {
                    let inner = before.0.0@[i as int].1;
                    let new = self.0.0@[i as int];
                    assert(self.0.0@ =~= before.0.0@.update(i as int, new));
                    assert forall|k: Text, j: int| self.0.is_at(k, j) == before.0.is_at(k, j) by {}
                    assert forall|k: Text| self.0.has(k) == before.0.has(k) by {
                        if self.0.has(k) {
                            assert(before.0.is_at(k, self.0.place(k)));
                        }
                        if before.0.has(k) {
                            assert(self.0.is_at(k, before.0.place(k)));
                        }
                    }
                    assert forall|k: Text| self.0.has(k) implies self.0.place(k) == before.0.place(
                        k,
                    ) by {
                        assert(self.0.is_at(k, self.0.place(k)));
                        assert(before.0.is_at(k, self.0.place(k)));
                        assert(before.0.is_at(k, before.0.place(k)));
                    }
                    assert(before.0.is_at(collection@, i as int));
                    assert(before.0.is_at(collection@, before.0.place(collection@)));
                    assert(before.0.place(collection@) == i);
                    assert(before@[collection@] == inner.map());
                    assert(self@ =~= with_count(before@, collection@, path@, n));
                }
            },
            None => {
                let ghost before = *self;
                let mut paths: Named<u64> = Named::new();
                paths.set(path, n);
                let ghost c = collection@;
                self.0.push_new(collection, paths);
                assert(self@ =~= with_count(before@, c, path@, n));
            },
        }
    }
}

}
