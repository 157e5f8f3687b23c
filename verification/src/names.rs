//! A small set of column names with deterministic, first-insertion order.
//!
//! Both optimizer passes keep sets of column names: the pushdown pass to
//! avoid accumulating one column twice, the scan aggregation to union the
//! demands of every occurrence of a source.  Order of first insertion is
//! kept, so that rewritten scan column lists are deterministic.

use vstd::prelude::*;

verus! {

/// The character sequences behind a list of names.
pub open spec fn names_view(v: Seq<String>) -> Seq<Seq<char>> {
    Seq::new(v.len(), |i: int| v[i]@)
}

/// An insertion-ordered set of column names.
pub struct NameSet {
    items: Vec<String>,
}

impl NameSet {
    /// The names held, as a set of character sequences.
    pub open spec fn spec_names(&self) -> Set<Seq<char>> {
        Set::new(
            |n: Seq<char>|
                exists|i: int| 0 <= i < self.spec_items().len() && self.spec_items()[i]@ == n,
        )
    }

    /// The names held, in first-insertion order.
    pub closed spec fn spec_items(&self) -> Seq<String> {
        self.items@
    }

    /// No name occurs twice.
    pub open spec fn distinct(&self) -> bool {
        forall|i: int, j: int|
            0 <= i < j < self.spec_items().len() ==> self.spec_items()[i]@ != self.spec_items()[j]@
    }

    pub fn new() -> (r: NameSet)
        ensures
            r.spec_names() == Set::<Seq<char>>::empty(),
            r.spec_items() == Seq::<String>::empty(),
            r.distinct(),
    {
        let r = NameSet { items: Vec::new() };
        proof {
            assert(r.spec_names() =~= Set::<Seq<char>>::empty());
        }
        r
    }

    pub fn len(&self) -> (r: usize)
        ensures
            r == self.spec_items().len(),
    {
        self.items.len()
    }

    /// The names in first-insertion order.
    pub fn items(&self) -> (r: &Vec<String>)
        ensures
            r@ == self.spec_items(),
    {
        &self.items
    }

    pub fn contains(&self, name: &String) -> (r: bool)
        ensures
            r == self.spec_names().contains(name@),
    {
        let n = self.items.len();
        let mut i: usize = 0;
        while i < n
            invariant
                i <= n,
                n == self.spec_items().len(),
                forall|j: int| 0 <= j < i ==> self.spec_items()[j]@ != name@,
            decreases n - i,
        {
            if self.items[i].eq(name) {
                return true;
            }
            i += 1;
        }
        false
    }

    /// Adds `name` unless it is already held.  Returns whether it was new.
    pub fn insert(&mut self, name: String) -> (r: bool)
        requires
            old(self).distinct(),
        ensures
            r == !old(self).spec_names().contains(name@),
            final (self).distinct(),
            final (self).spec_names() == old(self).spec_names().insert(name@),
            if r {
                final (self).spec_items() == old(self).spec_items().push(name)
            } else {
                final (self).spec_items() == old(self).spec_items()
            },
    {
        if self.contains(&name) {
            proof {
                assert(self.spec_names() =~= old(self).spec_names().insert(name@));
            }
            false
        } else {
            self.items.push(name);
            proof {
                assert forall|n: Seq<char>|
                    self.spec_names().contains(n) == old(self).spec_names().insert(
                        name@,
                    ).contains(n) by {
                    if n == name@ {
                        assert(self.spec_items()[self.spec_items().len() - 1]@ == n);
                    } else {
                        if old(self).spec_names().contains(n) {
                            let i = choose|i: int|
                                0 <= i < old(self).spec_items().len() && old(self).spec_items()[i]@
                                    == n;
                            assert(self.spec_items()[i]@ == n);
                        } else {
                            if self.spec_names().contains(n) {
                                let i = choose|i: int|
                                    0 <= i < self.spec_items().len() && self.spec_items()[i]@ == n;
                                assert(i < self.spec_items().len() - 1 ==> old(
                                    self,
                                ).spec_items()[i]@ == n);
                            }
                        }
                    }
                }
                assert(self.spec_names() =~= old(self).spec_names().insert(name@));
            }
            true
        }
    }

    /// Removes `name` if it is held.  Returns whether it was.
    pub fn remove(&mut self, name: &String) -> (r: bool)
        requires
            old(self).distinct(),
        ensures
            r == old(self).spec_names().contains(name@),
            final (self).distinct(),
            final (self).spec_names() == old(self).spec_names().remove(name@),
    {
        let n = self.items.len();
        let mut i: usize = 0;
        while i < n
            invariant
                i <= n,
                n == self.spec_items().len(),
                self == old(self),
                old(self).distinct(),
                forall|j: int| 0 <= j < i ==> self.spec_items()[j]@ != name@,
            decreases n - i,
        {
            if self.items[i].eq(name) {
                                let ghost at = i as int;
                proof {
                    assert(old(self).spec_items()[at]@ == name@);
                }
                self.items.remove(i);
                proof {
                    old(self).spec_items().remove_ensures(at);
                    assert(self.spec_items() == old(self).spec_items().remove(at));
                    assert forall|a: int| 0 <= a < self.spec_items().len() implies (
                    #[trigger] self.spec_items()[a])@ != name@ by {
                        if a < at {
                            assert(self.spec_items()[a] == old(self).spec_items().remove(at)[a]);
                            assert(old(self).spec_items().remove(at)[a] == old(self).spec_items()[a]);
                            assert(old(self).spec_items()[a]@ != name@);
                        } else {
                            assert(self.spec_items()[a] == old(self).spec_items().remove(at)[a]);
                            assert(old(self).spec_items().remove(at)[a] == old(self).spec_items()[a + 1]);
                            assert(old(self).spec_items()[a + 1]@ != old(self).spec_items()[at]@);
                        }
                    }
                    assert forall|a: int, b: int|
                        0 <= a < b < self.spec_items().len() implies self.spec_items()[a]@
                        != self.spec_items()[b]@ by {
                        if a < at {
                            assert(old(self).spec_items().remove(at)[a] == old(self).spec_items()[a]);
                        } else {
                            assert(old(self).spec_items().remove(at)[a] == old(self).spec_items()[a + 1]);
                        }
                        if b < at {
                            assert(old(self).spec_items().remove(at)[b] == old(self).spec_items()[b]);
                        } else {
                            assert(old(self).spec_items().remove(at)[b] == old(self).spec_items()[b + 1]);
                        }
                    }
                    assert forall|nm: Seq<char>|
                        self.spec_names().contains(nm) == old(self).spec_names().remove(
                            name@,
                        ).contains(nm) by {
                        if self.spec_names().contains(nm) {
                            let k = choose|k: int|
                                0 <= k < self.spec_items().len() && self.spec_items()[k]@ == nm;
                            if k < at {
                                assert(old(self).spec_items().remove(at)[k] == old(self).spec_items()[k]);
                                assert(old(self).spec_items()[k]@ == nm);
                            } else {
                                assert(old(self).spec_items().remove(at)[k] == old(self).spec_items()[k + 1]);
                                assert(old(self).spec_items()[k + 1]@ == nm);
                            }
                        }
                        if old(self).spec_names().remove(name@).contains(nm) {
                            let j = choose|j: int| 0 <= j < old(self).spec_items().len() && old(self).spec_items()[j]@ == nm;
                            if j < at {
                                assert(old(self).spec_items().remove(at)[j] == old(self).spec_items()[j]);
                                assert(self.spec_items()[j]@ == nm);
                            } else {
                                assert(j != at);
                                assert(old(self).spec_items().remove(at)[j - 1] == old(self).spec_items()[j]);
                                assert(self.spec_items()[j - 1]@ == nm);
                            }
                        }
                    }
                    assert(self.spec_names() =~= old(self).spec_names().remove(name@));
                }
                return true;
            }
            i += 1;
        }
        proof {
            assert(self.spec_names() =~= old(self).spec_names().remove(name@));
        }
        false
    }
}

impl Clone for NameSet {
    fn clone(&self) -> (r: NameSet)
        ensures
            r.spec_items() == self.spec_items(),
            r.spec_names() == self.spec_names(),
            r.distinct() == self.distinct(),
    {
        let n = self.items.len();
        let mut out: Vec<String> = Vec::new();
        let mut i: usize = 0;
        while i < n
            invariant
                i <= n,
                n == self.spec_items().len(),
                out@.len() == i,
                forall|j: int| 0 <= j < i ==> out@[j] == self.spec_items()[j],
            decreases n - i,
        {
            out.push(self.items[i].clone());
            i += 1;
        }
        let r = NameSet { items: out };
        proof {
            assert(r.spec_items() =~= self.spec_items());
            assert(r.spec_names() =~= self.spec_names());
        }
        r
    }
}

} // verus!
