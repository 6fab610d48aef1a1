//! The byte-keyed map, its two iterators, and the laws that its operations
//! obey together.

use vstd::prelude::*;
use crate::sorted::{
    contents,
    lemma_ascending_unique,
    lemma_contents_at,
    lemma_contents_len,
    lemma_insert_at,
    lemma_remove_at,
    lemma_update_at,
    search_key,
    strictly_ascending,
    values_of,
};

verus! {

/// The contents after `insert(k, v)` on contents `m`: an entry is added only
/// where `k` has none.
pub open spec fn inserted<T>(m: Map<u8, T>, k: u8, v: T) -> Map<u8, T> {
    if m.contains_key(k) {
        m
    } else {
        m.insert(k, v)
    }
}

/// A map from byte keys to values, stored as entries in ascending key order.
/// An empty map holds no array: `map` is `None` exactly when there are no
/// entries.
#[derive(Debug)]
pub struct OrderedU8Map<T> {
    map: Option<Vec<(u8, T)>>,
}

impl<T> View for OrderedU8Map<T> {
    type V = Map<u8, T>;

    closed spec fn view(&self) -> Map<u8, T> {
        contents(self.entries())
    }
}

impl<T> OrderedU8Map<T> {
    /// The entries, in the order in which they are stored.
    pub closed spec fn entries(&self) -> Seq<(u8, T)> {
        match self.map {
            Some(v) => v@,
            None => Seq::empty(),
        }
    }

    /// Whether the map holds an array of entries.
    pub closed spec fn allocated(&self) -> bool {
        self.map is Some
    }

    /// Well-formed: entries in strictly ascending key order, and an array is
    /// held only while it has entries.
    pub closed spec fn wf(&self) -> bool {
        &&& strictly_ascending(self.entries())
        &&& self.allocated() <==> self.entries().len() > 0
    }

    /// The facts that every well-formed map gives its users.
    pub proof fn lemma_wf(&self)
        requires
            self.wf(),
        ensures
            strictly_ascending(self.entries()),
            self@ == contents(self.entries()),
            self@.dom().finite(),
            self@.len() == self.entries().len(),
            self.allocated() <==> self@.len() > 0,
    {
        lemma_contents_len(self.entries());
    }

    /// An empty map, with no array.
    pub fn new() -> (r: OrderedU8Map<T>)
        ensures
            r.wf(),
            r@ == Map::<u8, T>::empty(),
            r.entries() == Seq::<(u8, T)>::empty(),
            !r.allocated(),
    {
        let r = OrderedU8Map { map: None };
        assert(r@ =~= Map::<u8, T>::empty());
        r
    }

    /// The number of entries.
    pub fn len(&self) -> (r: usize)
        requires
            self.wf(),
        ensures
            r == self@.len(),
            r == self.entries().len(),
    {
        proof {
            self.lemma_wf();
        }
        match &self.map {
            Some(v) => v.len(),
            None => 0,
        }
    }

    /// Whether there are no entries.
    pub fn is_empty(&self) -> (r: bool)
        requires
            self.wf(),
        ensures
            r <==> self@.len() == 0,
            r <==> self@ == Map::<u8, T>::empty(),
    {
        proof {
            self.lemma_wf();
            if self@.len() == 0 {
                assert(self@ =~= Map::<u8, T>::empty());
            }
        }
        self.len() == 0
    }

    /// The value under `key`, if there is one.
    pub fn get(&self, key: u8) -> (r: Option<&T>)
        requires
            self.wf(),
        ensures
            r == (if self@.contains_key(key) {
                Some(&self@[key])
            } else {
                None
            }),
    {
        match &self.map {
            None => None,
            Some(v) => match search_key(v, key) {
                Ok(i) => {
                    proof {
                        lemma_contents_at(v@, i as int);
                    }
                    Some(&v[i].1)
                },
                Err(_) => None,
            },
        }
    }

    /// Adds `(key, val)` where `key` has no entry, and returns `true`; where
    /// it has one, leaves the map as it is (`val` is dropped) and returns
    /// `false`.
    pub fn insert(&mut self, key: u8, val: T) -> (r: bool)
        requires
            old(self).wf(),
        ensures
            final(self).wf(),
            r == !old(self)@.contains_key(key),
            final(self)@ == inserted(old(self)@, key, val),
    {
        let m = self.map.get_or_insert(Vec::new());
        match search_key(m, key) {
            Ok(i) => {
                proof {
                    lemma_contents_at(m@, i as int);
                }
                false
            },
            Err(i) => {
                proof {
                    lemma_insert_at(m@, i as int, key, val);
                }
                m.insert(i, (key, val));
                true
            },
        }
    }

    /// The value under `key`, mutably. Where `key` has no entry, `create` is
    /// called once and `(key, create())` is added first.
    pub fn get_or_create<F: FnOnce() -> T>(&mut self, key: u8, create: F) -> (r: &mut T)
        requires
            old(self).wf(),
            !old(self)@.contains_key(key) ==> create.requires(()),
        ensures
            final(self).wf(),
            old(self)@.contains_key(key) ==> *r == old(self)@[key],
            !old(self)@.contains_key(key) ==> create.ensures((), *r),
            final(self)@ == old(self)@.insert(key, *final(r)),
    {
        let m = self.map.get_or_insert(Vec::new());
        let index = match search_key(m, key) {
            Ok(index) => {
                proof {
                    lemma_contents_at(m@, index as int);
                }
                index
            },
            Err(index) => {
                let val = create();
                proof {
                    lemma_insert_at(m@, index as int, key, val);
                }
                m.insert(index, (key, val));
                index
            },
        };
        let ghost s = m@;
        proof {
            lemma_contents_at(s, index as int);
        }
        let e = &mut m[index];
        let r = &mut e.1;
        proof {
            lemma_update_at(s, index as int, *final(r));
        }
        r
    }

    /// The value under `key`, mutably, if there is one.
    pub fn get_mut(&mut self, key: u8) -> (r: Option<&mut T>)
        requires
            old(self).wf(),
        ensures
            final(self).wf(),
            r is Some <==> old(self)@.contains_key(key),
            r is Some ==> *r.unwrap() == old(self)@[key] && final(self)@ == old(self)@.insert(
                key,
                *final(r.unwrap()),
            ),
            r is None ==> *final(self) == *old(self),
    {
        match &mut self.map {
            None => None,
            Some(m) => match search_key(m, key) {
                Ok(index) => {
                    let ghost s = m@;
                    proof {
                        lemma_contents_at(s, index as int);
                    }
                    let e = &mut m[index];
                    let r = &mut e.1;
                    proof {
                        lemma_update_at(s, index as int, *final(r));
                    }
                    Some(r)
                },
                Err(_) => None,
            },
        }
    }

    /// Takes the entry under `key` out and returns its value, if there is
    /// one. Taking out the last entry lets the array go.
    pub fn remove(&mut self, key: u8) -> (r: Option<T>)
        requires
            old(self).wf(),
        ensures
            final(self).wf(),
            r == (if old(self)@.contains_key(key) {
                Some(old(self)@[key])
            } else {
                None
            }),
            final(self)@ == old(self)@.remove(key),
    {
        let m = match &mut self.map {
            Some(m) => m,
            None => {
                assert(self@ =~= self@.remove(key));
                return None;
            },
        };
        let index = match search_key(m, key) {
            Ok(index) => index,
            Err(_) => {
                assert(m@ == self.entries());
                assert(self@ =~= self@.remove(key));
                return None;
            },
        };
        proof {
            lemma_contents_at(m@, index as int);
            lemma_remove_at(m@, index as int);
        }
        let res = m.remove(index).1;
        if m.is_empty() {
            self.map = None;
        }
        Some(res)
    }

    /// Moves every entry into the map returned, and leaves this one empty.
    pub fn take(&mut self) -> (r: OrderedU8Map<T>)
        requires
            old(self).wf(),
        ensures
            r.wf(),
            final(self).wf(),
            r.entries() == old(self).entries(),
            r@ == old(self)@,
            r.allocated() == old(self).allocated(),
            final(self)@ == Map::<u8, T>::empty(),
            final(self).entries() == Seq::<(u8, T)>::empty(),
            !final(self).allocated(),
    {
        let r = OrderedU8Map { map: self.map.take() };
        assert(self@ =~= Map::<u8, T>::empty());
        r
    }

    /// An iterator over the values, in ascending key order.
    pub fn values(&self) -> (r: OrderedU8ValuesIterator<'_, T>)
        ensures
            r.items() == values_of(self.entries()),
            r.pos() == 0,
    {
        OrderedU8ValuesIterator::new(self)
    }

    /// Turns the map into an iterator that hands out its entries from the
    /// largest key down.
    pub fn into_iter(self) -> (r: OrderedU8MapIterator<T>)
        requires
            self.wf(),
        ensures
            r.wf(),
            r.remaining() == self.entries(),
    {
        OrderedU8MapIterator { map: self }
    }
}

/// Consumes a map, handing out its entries as owned pairs from the back of
/// the array, so in descending key order.
pub struct OrderedU8MapIterator<T> {
    map: OrderedU8Map<T>,
}

impl<T> OrderedU8MapIterator<T> {
    /// The entries not yet handed out, in ascending key order.
    pub closed spec fn remaining(&self) -> Seq<(u8, T)> {
        self.map.entries()
    }

    /// Well-formed: the map that is being drained is.
    pub closed spec fn wf(&self) -> bool {
        self.map.wf()
    }

    /// Hands out the entry with the largest key left.
    pub fn next(&mut self) -> (r: Option<(u8, T)>)
        requires
            old(self).wf(),
        ensures
            final(self).wf(),
            old(self).remaining().len() > 0 ==> r == Some(old(self).remaining().last())
                && final(self).remaining() == old(self).remaining().drop_last(),
            old(self).remaining().len() == 0 ==> r is None && final(self).remaining()
                == old(self).remaining(),
    {
        let r = match &mut self.map.map {
            None => None,
            Some(v) => {
                proof {
                    lemma_remove_at(v@, v@.len() - 1);
                    assert(v@.remove(v@.len() - 1) =~= v@.drop_last());
                }
                v.pop()
            },
        };
        if let Some(v) = &self.map.map {
            if v.is_empty() {
                self.map.map = None;
            }
        }
        r
    }
}

/// Walks the values of a map in ascending key order, by position.
pub struct OrderedU8ValuesIterator<'map, T> {
    map: &'map OrderedU8Map<T>,
    index: usize,
}

impl<'map, T> OrderedU8ValuesIterator<'map, T> {
    /// The values that the walk goes over, in order.
    pub closed spec fn items(&self) -> Seq<T> {
        values_of(self.map.entries())
    }

    /// The position of the next value to hand out.
    pub closed spec fn pos(&self) -> int {
        self.index as int
    }

    /// A walk from the first value of `map`.
    pub fn new(map: &'map OrderedU8Map<T>) -> (r: OrderedU8ValuesIterator<'map, T>)
        ensures
            r.items() == values_of(map.entries()),
            r.pos() == 0,
    {
        OrderedU8ValuesIterator { map, index: 0 }
    }

    /// The next value, if any is left.
    pub fn next(&mut self) -> (r: Option<&'map T>)
        ensures
            final(self).items() == old(self).items(),
            old(self).pos() < old(self).items().len() ==> r == Some(
                &old(self).items()[old(self).pos()],
            ) && final(self).pos() == old(self).pos() + 1,
            old(self).pos() >= old(self).items().len() ==> r is None && final(self).pos() == old(
                self,
            ).pos(),
    {
        let m: &'map OrderedU8Map<T> = self.map;
        match &m.map {
            None => None,
            Some(v) => {
                if self.index < v.len() {
                    let res = &v[self.index].1;
                    self.index = self.index + 1;
                    Some(res)
                } else {
                    None
                }
            },
        }
    }
}

/// However a well-formed map was reached, `values` hands out the value under
/// each key in strictly ascending key order, and no key twice.
pub proof fn lemma_values_in_key_order<T>(m: &OrderedU8Map<T>)
    requires
        m.wf(),
    ensures
        values_of(m.entries()).len() == m@.len(),
        forall|i: int, j: int|
            0 <= i < j < m.entries().len() ==> (#[trigger] m.entries()[i]).0 < (
            #[trigger] m.entries()[j]).0,
        forall|i: int|
            0 <= i < m.entries().len() ==> m@.contains_key(#[trigger] m.entries()[i].0)
                && values_of(m.entries())[i] == m@[m.entries()[i].0],
        forall|k: u8|
            #[trigger] m@.contains_key(k) ==> exists|i: int|
                0 <= i < m.entries().len() && (#[trigger] m.entries()[i]).0 == k,
{
    m.lemma_wf();
    assert forall|i: int| 0 <= i < m.entries().len() implies m@.contains_key(
        #[trigger] m.entries()[i].0,
    ) && values_of(m.entries())[i] == m@[m.entries()[i].0] by {
        lemma_contents_at(m.entries(), i);
    }
}

/// A well-formed map with no entries holds no array: it is in the state that
/// `new` gives.
pub proof fn lemma_empty_is_unallocated<T>(m: &OrderedU8Map<T>)
    requires
        m.wf(),
        m@.len() == 0,
    ensures
        !m.allocated(),
        m.entries() == Seq::<(u8, T)>::empty(),
        m@ == Map::<u8, T>::empty(),
{
    m.lemma_wf();
    assert(m@ =~= Map::<u8, T>::empty());
}

/// Two well-formed maps with the same contents store the same entries in the
/// same order, and hold an array alike: the contents decide everything that
/// the operations can observe.
pub proof fn lemma_contents_decide<T>(a: &OrderedU8Map<T>, b: &OrderedU8Map<T>)
    requires
        a.wf(),
        b.wf(),
        a@ == b@,
    ensures
        a.entries() == b.entries(),
        a.allocated() == b.allocated(),
{
    a.lemma_wf();
    b.lemma_wf();
    lemma_ascending_unique(a.entries(), b.entries());
}

/// `insert` never overwrites: after `insert(k, v1)`, a second
/// `insert(k, v2)` finds `k` (so returns `false`) and changes nothing, and
/// where `k` was new its value is `v1`.
pub proof fn lemma_insert_does_not_overwrite<T>(m: Map<u8, T>, k: u8, v1: T, v2: T)
    ensures
        inserted(m, k, v1).contains_key(k),
        inserted(inserted(m, k, v1), k, v2) == inserted(m, k, v1),
        !m.contains_key(k) ==> inserted(m, k, v1)[k] == v1,
{
}

/// After a first `get_or_create(k, ..)` leaves `x` under `k`, a second one
/// finds `k`: it hands out that same value and does not create one.
pub proof fn lemma_get_or_create_twice<T>(m: Map<u8, T>, k: u8, x: T)
    ensures
        m.insert(k, x).contains_key(k),
        m.insert(k, x)[k] == x,
{
}

/// `insert(k, v)` on a key without an entry, then `remove(k)`, returns `v`,
/// leaves `k` without an entry, takes the count down by one, and gives back
/// the contents that there were before.
pub proof fn lemma_remove_round_trip<T>(m: Map<u8, T>, k: u8, v: T)
    requires
        m.dom().finite(),
        !m.contains_key(k),
    ensures
        inserted(m, k, v).contains_key(k),
        inserted(m, k, v)[k] == v,
        !inserted(m, k, v).remove(k).contains_key(k),
        inserted(m, k, v).remove(k).len() == inserted(m, k, v).len() - 1,
        inserted(m, k, v).remove(k) == m,
{
    assert(m.insert(k, v).remove(k) =~= m);
}

} // verus!
