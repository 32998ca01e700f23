//! A map from hashes to values: items in insertion order, found through an index on the
//! first eight bytes of the hash.

use std::collections::HashMap;
use vstd::prelude::*;
use vstd::std_specs::hash::*;
use crate::hash::same_hash;

verus! {

/// A map keyed by hash.
#[derive(Debug)]
pub struct Table<V> {
    items: Vec<(crate::hash::Hash, V)>,
    index: HashMap<u64, Vec<usize>>,
}

/// The index key of a hash.
spec fn key_of(h: Seq<u8>) -> u64 {
    vstd::bytes::spec_u64_from_le_bytes(h.take(8))
}

fn key(h: &crate::hash::Hash) -> (k: u64)
    ensures
        k == key_of(h@),
{
    let head = vstd::slice::slice_subrange(h.as_slice(), 0, 8);
    assert(head@ =~= h@.take(8));
    vstd::bytes::u64_from_le_bytes(head)
}

impl<V> View for Table<V> {
    type V = Map<Seq<u8>, V>;

    closed spec fn view(&self) -> Map<Seq<u8>, V> {
        items_map(self.items@)
    }
}

spec fn items_map<V>(items: Seq<(crate::hash::Hash, V)>) -> Map<Seq<u8>, V>
    decreases items.len(),
{
    if items.len() == 0 {
        Map::empty()
    } else {
        items_map(items.drop_last()).insert(items.last().0@, items.last().1)
    }
}

/// Position `i` is listed under `k`.
spec fn listed(index: Map<u64, Vec<usize>>, k: u64, i: int) -> bool {
    index.contains_key(k) && exists|j: int| 0 <= j < index[k]@.len() && index[k]@[j] == i
}

spec fn table_wf<V>(items: Seq<(crate::hash::Hash, V)>, index: Map<u64, Vec<usize>>) -> bool {
    &&& forall|i: int, j: int| 0 <= i < j < items.len() ==> (#[trigger] items[i]).0@ != (#[trigger] items[j]).0@
    &&& forall|i: int| 0 <= i < items.len() ==> #[trigger] listed(index, key_of(items[i].0@), i)
}

proof fn lemma_items_map<V>(items: Seq<(crate::hash::Hash, V)>, h: Seq<u8>)
    requires
        forall|i: int, j: int| 0 <= i < j < items.len() ==> (#[trigger] items[i]).0@ != (#[trigger] items[j]).0@,
    ensures
        items_map(items).contains_key(h) <==> exists|i: int| 0 <= i < items.len() && (#[trigger] items[i]).0@ == h,
        forall|i: int| 0 <= i < items.len() && (#[trigger] items[i]).0@ == h ==> items_map(items)[h] == items[i].1,
    decreases items.len(),
{
    if items.len() > 0 {
        let front = items.drop_last();
        assert forall|i: int, j: int| 0 <= i < j < front.len() implies (#[trigger] front[i]).0@ != (#[trigger] front[j]).0@ by {
            assert(items[i].0@ != items[j].0@);
        }
        lemma_items_map(front, h);
        let last = items.len() - 1;
        if items_map(items).contains_key(h) {
            if items[last].0@ != h {
                let i = choose|i: int| 0 <= i < front.len() && (#[trigger] front[i]).0@ == h;
                assert(items[i].0@ == h);
            }
        }
        if exists|i: int| 0 <= i < items.len() && (#[trigger] items[i]).0@ == h {
            let i = choose|i: int| 0 <= i < items.len() && (#[trigger] items[i]).0@ == h;
            if i < last {
                assert(front[i].0@ == h);
            }
        }
        assert forall|i: int| 0 <= i < items.len() && (#[trigger] items[i]).0@ == h implies items_map(items)[h] == items[i].1 by {
            if i < last {
                assert(front[i].0@ == h);
                assert(items[i].0@ != items[last].0@);
            }
        }
    }
}

impl<V> Table<V> {
    #[verifier::type_invariant]
    spec fn wf(self) -> bool {
        table_wf(self.items@, self.index@)
    }

    pub fn new() -> (t: Self)
        ensures
            t@ == Map::<Seq<u8>, V>::empty(),
    {
        broadcast use vstd::std_specs::hash::group_hash_axioms;

        Table { items: Vec::new(), index: HashMap::new() }
    }

    /// Number of keys.
    pub fn len(&self) -> (n: usize)
        ensures
            n == self@.len(),
            self@.dom().finite(),
    {
        proof {
            use_type_invariant(self);
            lemma_items_len(self.items@);
        }
        self.items.len()
    }

    pub fn get(&self, h: &crate::hash::Hash) -> (r: Option<&V>)
        ensures
            match r {
                Some(v) => self@.contains_key(h@) && self@[h@] == *v,
                None => !self@.contains_key(h@),
            },
    {
        broadcast use vstd::std_specs::hash::group_hash_axioms;

        proof {
            use_type_invariant(self);
            lemma_items_map(self.items@, h@);
        }
        let k: u64 = key(h);
        match self.index.get(&k) {
            None => {
                assert forall|i: int| 0 <= i < self.items@.len() implies (#[trigger] self.items@[i]).0@ != h@ by {
                    assert(listed(self.index@, key_of(self.items@[i].0@), i));
                }
                None
            },
            Some(list) => {
                let mut j: usize = 0;
                while j < list.len()
                    invariant
                        j <= list@.len(),
                        forall|m: int|
                            0 <= m < j && list@[m] < self.items@.len() ==> self.items@[(#[trigger] list@[m]) as int].0@ != h@,
                        forall|i: int|
                            0 <= i < self.items@.len() && (#[trigger] self.items@[i]).0@ == h@ ==> self@[h@] == self.items@[i].1,
                        self@.contains_key(h@) <==> exists|i: int| 0 <= i < self.items@.len() && (#[trigger] self.items@[i]).0@ == h@,
                    decreases list@.len() - j,
                {
                    let i: usize = list[j];
                    if i < self.items.len() {
                        let item = &self.items[i];
                        if same_hash(&item.0, h) {
                            assert(self.items@[i as int].0@ == h@);
                            return Some(&item.1);
                        }
                    }
                    j += 1;
                }
                proof {
                    if self@.contains_key(h@) {
                        let i = choose|i: int| 0 <= i < self.items@.len() && (#[trigger] self.items@[i]).0@ == h@;
                        assert(listed(self.index@, key_of(self.items@[i].0@), i));
                        let m = choose|m: int| 0 <= m < self.index@[k]@.len() && self.index@[k]@[m] == i;
                        assert(list@[m] == i);
                        assert(false);
                    }
                }
                None
            },
        }
    }

    /// Add a key that is not there yet.
    pub fn insert_new(&mut self, h: &crate::hash::Hash, v: V)
        requires
            !old(self)@.contains_key(h@),
        ensures
            final(self)@ == old(self)@.insert(h@, v),
    {
        let mut t = Table::new();
        std::mem::swap(self, &mut t);
        *self = t.with(h, v);
    }

    fn with(self, h: &crate::hash::Hash, v: V) -> (t: Self)
        requires
            !self@.contains_key(h@),
        ensures
            t@ == self@.insert(h@, v),
    {
        broadcast use vstd::std_specs::hash::group_hash_axioms;

        proof {
            use_type_invariant(&self);
            lemma_items_map(self.items@, h@);
        }
        let ghost m0 = self.index@;
        let ghost items0 = self.items@;
        let Table { items, index } = self;
        let mut items = items;
        let mut index = index;
        let k: u64 = key(h);
        let mut list: Vec<usize> = match index.remove(&k) {
            Some(l) => l,
            None => Vec::new(),
        };
        let ghost l0 = list@;
        let at: usize = items.len();
        list.push(at);
        let ghost l1 = list@;
        index.insert(k, list);
        items.push((*h, v));
        proof {
            assert(items@.drop_last() =~= items0);
            assert forall|i: int, j: int| 0 <= i < j < items@.len() implies (#[trigger] items@[i]).0@ != (#[trigger] items@[j]).0@ by {
                assert(items@[i] == items0[i]);
                if j < items0.len() {
                    assert(items@[j] == items0[j]);
                }
            }
            assert forall|i: int| 0 <= i < items@.len() implies #[trigger] listed(index@, key_of(items@[i].0@), i) by {
                let ki = key_of(items@[i].0@);
                if i < items0.len() {
                    assert(items@[i] == items0[i]);
                    assert(listed(m0, key_of(items0[i].0@), i));
                    let j = choose|j: int| 0 <= j < m0[ki]@.len() && m0[ki]@[j] == i;
                    if ki == k {
                        assert(index@[ki]@[j] == i);
                    } else {
                        assert(index@[ki] == m0[ki]);
                    }
                } else {
                    assert(index@[k]@[l0.len() as int] == i);
                }
            }
        }
        Table { items, index }
    }
}

proof fn lemma_items_len<V>(items: Seq<(crate::hash::Hash, V)>)
    requires
        forall|i: int, j: int| 0 <= i < j < items.len() ==> (#[trigger] items[i]).0@ != (#[trigger] items[j]).0@,
    ensures
        items_map(items).len() == items.len(),
        items_map(items).dom().finite(),
    decreases items.len(),
{
    if items.len() > 0 {
        let front = items.drop_last();
        assert forall|i: int, j: int| 0 <= i < j < front.len() implies (#[trigger] front[i]).0@ != (#[trigger] front[j]).0@ by {
            assert(items[i].0@ != items[j].0@);
        }
        lemma_items_len(front);
        lemma_items_map(front, items.last().0@);
        if items_map(front).contains_key(items.last().0@) {
            let i = choose|i: int| 0 <= i < front.len() && (#[trigger] front[i]).0@ == items.last().0@;
            assert(items[i].0@ != items[items.len() - 1].0@);
        }
    }
}

impl<V: Clone> Clone for Table<V> {
    fn clone(&self) -> (t: Self)
        ensures
            t@.dom() == self@.dom(),
            forall|h: Seq<u8>| #[trigger] self@.contains_key(h) ==> cloned(self@[h], t@[h]),
    {
        proof {
            use_type_invariant(self);
        }
        let mut t: Table<V> = Table::new();
        let mut i: usize = 0;
        assert(self.items@.take(0) =~= Seq::empty());
        while i < self.items.len()
            invariant
                i <= self.items@.len(),
                table_wf(self.items@, self.index@),
                t@.dom() == items_map(self.items@.take(i as int)).dom(),
                forall|h: Seq<u8>| #[trigger]
                    t@.contains_key(h) ==> cloned(items_map(self.items@.take(i as int))[h], t@[h]),
            decreases self.items@.len() - i,
        {
            let ghost front = self.items@.take(i as int);
            let item = &self.items[i];
            let ghost before = t@;
            proof {
                assert forall|a: int, b: int| 0 <= a < b < front.len() implies (#[trigger] front[a]).0@ != (
                #[trigger] front[b]).0@ by {
                    assert(self.items@[a].0@ != self.items@[b].0@);
                }
                lemma_items_map(front, item.0@);
                if items_map(front).contains_key(item.0@) {
                    let a = choose|a: int| 0 <= a < front.len() && (#[trigger] front[a]).0@ == item.0@;
                    assert(self.items@[a].0@ != self.items@[i as int].0@);
                }
                assert(before.dom().contains(item.0@) == items_map(front).dom().contains(item.0@));
            }
            let v = item.1.clone();
            t.insert_new(&item.0, v);
            i += 1;
            proof {
                let next = self.items@.take(i as int);
                assert(next.drop_last() =~= front);
                assert(t@.dom() =~= items_map(next).dom());
                assert forall|h: Seq<u8>| #[trigger] t@.contains_key(h) implies cloned(items_map(next)[h], t@[h]) by {
                    if h != item.0@ {
                        assert(before.contains_key(h));
                    }
                }
            }
        }
        assert(self.items@.take(i as int) =~= self.items@);
        proof {
            assert forall|h: Seq<u8>| #[trigger] self@.contains_key(h) implies cloned(self@[h], t@[h]) by {
                assert(t@.dom().contains(h));
                assert(t@.contains_key(h));
            }
        }
        t
    }
}

} // verus!
