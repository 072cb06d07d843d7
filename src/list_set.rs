//! A sorted set of keys, each at most once, in ascending order.
use core::cmp::Ordering;
use vstd::laws_cmp::{obeys_cmp, obeys_cmp_ord, obeys_cmp_partial_ord, obeys_partial_cmp_spec_properties};
use vstd::prelude::*;
use vstd::std_specs::cmp::{OrdSpec, PartialOrdSpec};

verus! {

/// Whether `s` holds a key that compares equal to `key`.
pub open spec fn has_key<T: Ord>(s: Seq<T>, key: T) -> bool {
    exists|k: int| 0 <= k < s.len() && #[trigger] s[k].cmp_spec(&key) == Ordering::Equal
}

/// Whether every key of `s` is less than every later one.
pub open spec fn strictly_ascending<T: Ord>(s: Seq<T>) -> bool {
    forall|a: int, b: int| 0 <= a < b < s.len() ==> #[trigger] s[a].cmp_spec(&s[b]) == Ordering::Less
}

/// The facts of a total order that the set relies on.
proof fn lemma_order<T: Ord>()
    requires
        obeys_cmp::<T>(),
    ensures
        T::obeys_cmp_spec(),
        forall|x: T, y: T| #[trigger]
            x.cmp_spec(&y) == Ordering::Less <==> y.cmp_spec(&x) == Ordering::Greater,
        forall|x: T, y: T, z: T|
            #[trigger] x.cmp_spec(&y) == Ordering::Less && #[trigger] y.cmp_spec(&z) == Ordering::Less
                ==> x.cmp_spec(&z) == Ordering::Less,
{
    reveal(obeys_cmp_ord);
    reveal(obeys_cmp_partial_ord);
    reveal(obeys_partial_cmp_spec_properties);
    assert forall|x: T, y: T| #[trigger]
        x.cmp_spec(&y) == Ordering::Less <==> y.cmp_spec(&x) == Ordering::Greater by {
        assert(x.partial_cmp_spec(&y) == Some(x.cmp_spec(&y)));
        assert(y.partial_cmp_spec(&x) == Some(y.cmp_spec(&x)));
    }
    assert forall|x: T, y: T, z: T|
        #[trigger] x.cmp_spec(&y) == Ordering::Less && #[trigger] y.cmp_spec(&z) == Ordering::Less
            implies x.cmp_spec(&z) == Ordering::Less by {
        assert(x.partial_cmp_spec(&y) == Some(x.cmp_spec(&y)));
        assert(y.partial_cmp_spec(&z) == Some(y.cmp_spec(&z)));
        assert(x.partial_cmp_spec(&z) == Some(x.cmp_spec(&z)));
    }
}

/// A sorted set. Its keys are kept in ascending order, each at most once. Changes take
/// `&mut self`, so that a set shared between threads changes under the caller's own exclusion.
pub struct FineGrainedListSet<T> {
    items: Vec<T>,
}

impl<T> View for FineGrainedListSet<T> {
    type V = Seq<T>;

    /// The keys, in ascending order.
    closed spec fn view(&self) -> Seq<T> {
        self.items@
    }
}

impl<T> FineGrainedListSet<T> {
    /// Creates an empty set.
    pub fn new() -> (r: Self)
        ensures
            r@ == Seq::<T>::empty(),
    {
        FineGrainedListSet { items: Vec::new() }
    }

    /// An iterator over the keys, in ascending order.
    pub fn iter(&self) -> (it: Iter<'_, T>)
        ensures
            it.wf(),
            it.remaining() == self@,
    {
        Iter { items: &self.items, cursor: 0 }
    }
}

impl<T: Ord> FineGrainedListSet<T> {
    /// Whether the keys are strictly ascending.
    pub open spec fn wf(&self) -> bool {
        strictly_ascending(self@)
    }

    /// The position of `key`, or where it would go: every key before it is less than `key`, and
    /// unless `key` is there, every key from it on is greater.
    fn find(&self, key: &T) -> (r: (bool, usize))
        requires
            obeys_cmp::<T>(),
            self.wf(),
        ensures
            r.1 <= self@.len(),
            r.0 == has_key(self@, *key),
            r.0 ==> self@[r.1 as int].cmp_spec(key) == Ordering::Equal,
            forall|k: int| 0 <= k < r.1 ==> #[trigger] self@[k].cmp_spec(key) == Ordering::Less,
            !r.0 ==> forall|k: int|
                r.1 <= k < self@.len() ==> #[trigger] key.cmp_spec(&self@[k]) == Ordering::Less,
    {
        proof {
            lemma_order::<T>();
        }
        let mut pos: usize = 0;
        while pos < self.items.len()
            invariant
                obeys_cmp::<T>(),
                T::obeys_cmp_spec(),
                self.wf(),
                pos <= self@.len(),
                forall|k: int| 0 <= k < pos ==> #[trigger] self@[k].cmp_spec(key) == Ordering::Less,
            decreases self@.len() - pos,
        {
            match key.cmp(&self.items[pos]) {
                Ordering::Equal => {
                    proof {
                        reveal(obeys_cmp_ord);
                        reveal(obeys_cmp_partial_ord);
                        reveal(obeys_partial_cmp_spec_properties);
                        let x = self@[pos as int];
                        assert(key.partial_cmp_spec(&x) == Some(key.cmp_spec(&x)));
                        assert(x.partial_cmp_spec(key) == Some(x.cmp_spec(key)));
                        assert(x.cmp_spec(key) == Ordering::Equal);
                    }
                    return (true, pos);
                },
                Ordering::Less => {
                    proof {
                        lemma_order::<T>();
                        assert forall|k: int| pos <= k < self@.len() implies #[trigger] key.cmp_spec(
                            &self@[k],
                        ) == Ordering::Less by {
                            if k > pos {
                                assert(self@[pos as int].cmp_spec(&self@[k]) == Ordering::Less);
                            }
                        }
                        assert forall|k: int| 0 <= k < self@.len() implies #[trigger] self@[k].cmp_spec(
                            key,
                        ) != Ordering::Equal by {
                            if k >= pos {
                                assert(key.cmp_spec(&self@[k]) == Ordering::Less);
                            }
                        }
                    }
                    return (false, pos);
                },
                Ordering::Greater => {
                    proof {
                        lemma_order::<T>();
                    }
                    pos = pos + 1;
                },
            }
        }
        (false, pos)
    }

    /// Whether the set holds `key`.
    pub fn contains(&self, key: &T) -> (r: bool)
        requires
            obeys_cmp::<T>(),
            self.wf(),
        ensures
            r == has_key(self@, *key),
    {
        self.find(key).0
    }

    /// Adds `key` where the set does not hold it yet; returns whether it did so.
    pub fn insert(&mut self, key: T) -> (r: bool)
        requires
            obeys_cmp::<T>(),
            old(self).wf(),
        ensures
            final(self).wf(),
            r == !has_key(old(self)@, key),
            r ==> exists|pos: int| 0 <= pos <= old(self)@.len() && final(self)@ == old(self)@.insert(pos, key),
            !r ==> final(self)@ == old(self)@,
    {
        let (found, pos) = self.find(&key);
        if found {
            return false;
        }
        proof {
            lemma_order::<T>();
        }
        let ghost before = self@;
        self.items.insert(pos, key);
        proof {
            assert forall|a: int, b: int| 0 <= a < b < self@.len() implies #[trigger] self@[a].cmp_spec(
                &self@[b],
            ) == Ordering::Less by {
                if a < pos && b == pos {
                } else if a < pos && b > pos {
                    assert(before[a].cmp_spec(&before[b - 1]) == Ordering::Less);
                } else if a == pos {
                    assert(key.cmp_spec(&before[b - 1]) == Ordering::Less);
                } else if a > pos {
                    assert(before[a - 1].cmp_spec(&before[b - 1]) == Ordering::Less);
                } else {
                    assert(before[a].cmp_spec(&before[b]) == Ordering::Less);
                }
            }
        }
        true
    }

    /// Removes the key that compares equal to `key`, where there is one; returns whether it did
    /// so.
    pub fn remove(&mut self, key: &T) -> (r: bool)
        requires
            obeys_cmp::<T>(),
            old(self).wf(),
        ensures
            final(self).wf(),
            r == has_key(old(self)@, *key),
            r ==> exists|pos: int|
                0 <= pos < old(self)@.len() && old(self)@[pos].cmp_spec(key) == Ordering::Equal
                    && final(self)@ == old(self)@.remove(pos),
            !r ==> final(self)@ == old(self)@,
    {
        let (found, pos) = self.find(key);
        if !found {
            return false;
        }
        let ghost before = self@;
        self.items.remove(pos);
        proof {
            assert(self@ == before.remove(pos as int));
            assert forall|a: int, b: int| 0 <= a < b < self@.len() implies #[trigger] self@[a].cmp_spec(
                &self@[b],
            ) == Ordering::Less by {
                if a < pos && b >= pos {
                    assert(before[a].cmp_spec(&before[b + 1]) == Ordering::Less);
                } else if a >= pos {
                    assert(before[a + 1].cmp_spec(&before[b + 1]) == Ordering::Less);
                } else {
                    assert(before[a].cmp_spec(&before[b]) == Ordering::Less);
                }
            }
        }
        true
    }
}

impl<T> Default for FineGrainedListSet<T> {
    /// An empty set, as `new` gives.
    fn default() -> (r: Self)
        ensures
            r@ == Seq::<T>::empty(),
    {
        Self::new()
    }
}

/// An iterator over the keys of a set, in ascending order.
pub struct Iter<'l, T> {
    items: &'l Vec<T>,
    cursor: usize,
}

impl<'l, T> Iter<'l, T> {
    /// Whether the cursor lies within the keys.
    pub closed spec fn wf(&self) -> bool {
        self.cursor <= self.items@.len()
    }

    /// The keys not handed out yet.
    pub closed spec fn remaining(&self) -> Seq<T> {
        self.items@.subrange(self.cursor as int, self.items@.len() as int)
    }

    /// Hands out the next key, or `None` after the last.
    pub fn next(&mut self) -> (r: Option<&'l T>)
        requires
            old(self).wf(),
        ensures
            final(self).wf(),
            old(self).remaining().len() == 0 ==> r.is_none() && final(self).remaining() == old(
                self,
            ).remaining(),
            old(self).remaining().len() > 0 ==> r.is_some() && *r.unwrap() == old(self).remaining()[0]
                && final(self).remaining() == old(self).remaining().drop_first(),
    {
        if self.cursor >= self.items.len() {
            return None;
        }
        let items: &'l Vec<T> = self.items;
        let item: &'l T = &items[self.cursor];
        self.cursor = self.cursor + 1;
        proof {
            assert(self.remaining() =~= old(self).remaining().drop_first());
        }
        Some(item)
    }
}

} // verus!
