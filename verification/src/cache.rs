//! Cache of decoded table blocks, keyed by (file number, block offset).
use vstd::prelude::*;

verus! {

/// A store of block bytes by (file number, block offset).
pub trait BlockCache {
    fn get(&self, key: &(u64, u64)) -> Option<Vec<u8>>;

    fn insert(&mut self, key: (u64, u64), value: Vec<u8>);
}

/// Bounded block cache: when it is full, it is emptied before the next insertion.
///
/// The blocks are held in a vector of (key, bytes) pairs with no key twice, not
/// in a `HashMap`: the key is a pair of integers, and vstd specifies a
/// `HashMap`'s lookups only for key types it knows to hash consistently (the
/// integer types and a few others), which a tuple is not among; for a tuple
/// that property could only be assumed.
pub struct LruBlockCache {
    capacity: usize,
    entries: Vec<((u64, u64), Vec<u8>)>,
}

impl LruBlockCache {
    /// No key occurs twice.
    #[verifier::type_invariant]
    spec fn wf(self) -> bool {
        forall|i: int, j: int| 0 <= i < j < self.entries@.len() ==> (#[trigger] self.entries@[i]).0 != (#[trigger] self.entries@[j]).0
    }

    pub closed spec fn spec_capacity(self) -> usize {
        self.capacity
    }

    /// Number of cached blocks.
    pub closed spec fn size(self) -> nat {
        self.entries@.len()
    }

    /// The cached bytes by key.
    pub closed spec fn contents(self) -> Map<(u64, u64), Seq<u8>> {
        Map::new(
            |k: (u64, u64)| exists|i: int| 0 <= i < self.entries@.len() && #[trigger] self.entries@[i].0 == k,
            |k: (u64, u64)| self.entries@[choose|i: int| 0 <= i < self.entries@.len() && #[trigger] self.entries@[i].0 == k].1@,
        )
    }

    pub fn new(capacity: usize) -> (c: LruBlockCache)
        ensures
            c.spec_capacity() == capacity,
            c.size() == 0,
            c.contents() == Map::<(u64, u64), Seq<u8>>::empty(),
    {
        let c = LruBlockCache { capacity, entries: Vec::new() };
        assert(c.contents() =~= Map::<(u64, u64), Seq<u8>>::empty());
        c
    }

    pub fn len(&self) -> (r: usize)
        ensures
            r == self.size(),
    {
        self.entries.len()
    }

    fn position(&self, key: &(u64, u64)) -> (r: Option<usize>)
        requires
            self.wf(),
        ensures
            match r {
                Some(i) => i < self.entries@.len() && self.entries@[i as int].0 == *key,
                None => forall|i: int| 0 <= i < self.entries@.len() ==> (#[trigger] self.entries@[i]).0 != *key,
            },
    {
        let mut i: usize = 0;
        while i < self.entries.len()
            invariant
                i <= self.entries@.len(),
                forall|j: int| 0 <= j < i ==> (#[trigger] self.entries@[j]).0 != *key,
            decreases self.entries@.len() - i,
        {
            if self.entries[i].0.0 == key.0 && self.entries[i].0.1 == key.1 {
                return Some(i);
            }
            i = i + 1;
        }
        None
    }

    proof fn lemma_lookup(self, i: int)
        requires
            self.wf(),
            0 <= i < self.entries@.len(),
        ensures
            self.contents().dom().contains(self.entries@[i].0),
            self.contents()[self.entries@[i].0] == self.entries@[i].1@,
    {
        let k = self.entries@[i].0;
        let j = choose|j: int| 0 <= j < self.entries@.len() && #[trigger] self.entries@[j].0 == k;
        if j != i {
            if j < i {
                assert(self.entries@[j].0 != self.entries@[i].0);
            } else {
                assert(self.entries@[i].0 != self.entries@[j].0);
            }
        }
    }
}

impl BlockCache for LruBlockCache {
    /// The cached bytes of a block, if any.
    fn get(&self, key: &(u64, u64)) -> (r: Option<Vec<u8>>)
        ensures
            match r {
                Some(v) => self.contents().dom().contains(*key) && v@ == self.contents()[*key],
                None => !self.contents().dom().contains(*key),
            },
    {
        proof { use_type_invariant(self); }
        match self.position(key) {
            Some(i) => {
                proof { self.lemma_lookup(i as int); }
                Some(self.entries[i].1.clone())
            },
            None => None,
        }
    }

    /// Caches a block; when the cache already holds `capacity` blocks, it is
    /// emptied first.
    fn insert(&mut self, key: (u64, u64), value: Vec<u8>)
        ensures
            final(self).spec_capacity() == old(self).spec_capacity(),
            final(self).contents() == (if old(self).size() >= old(self).spec_capacity() {
                Map::<(u64, u64), Seq<u8>>::empty()
            } else {
                old(self).contents()
            }).insert(key, value@),
    {
        proof { use_type_invariant(&*self); }
        if self.entries.len() >= self.capacity {
            self.entries = Vec::new();
            assert(self.contents() =~= Map::<(u64, u64), Seq<u8>>::empty());
        }
        let ghost before = *self;
        let ghost base = before.contents();
        let pos = self.position(&key);
        let mut es: Vec<((u64, u64), Vec<u8>)> = Vec::new();
        std::mem::swap(&mut es, &mut self.entries);
        match pos {
            Some(i) => {
                es.set(i, (key, value));
                self.entries = es;
                proof {
                    assert forall|a: int, b: int| 0 <= a < b < self.entries@.len() implies (#[trigger] self.entries@[a]).0 != (#[trigger] self.entries@[b]).0 by {
                        assert(before.entries@[a].0 != before.entries@[b].0);
                    }
                    assert forall|k: (u64, u64)| #[trigger] self.contents().dom().contains(k) == base.insert(key, value@).dom().contains(k) by {
                        if k != key && base.dom().contains(k) {
                            let j = choose|j: int| 0 <= j < before.entries@.len() && #[trigger] before.entries@[j].0 == k;
                            assert(self.entries@[j].0 == k);
                        }
                        if k == key {
                            assert(self.entries@[i as int].0 == k);
                        }
                        if self.contents().dom().contains(k) && k != key {
                            let j = choose|j: int| 0 <= j < self.entries@.len() && #[trigger] self.entries@[j].0 == k;
                            assert(before.entries@[j].0 == k);
                        }
                    }
                    assert forall|k: (u64, u64)| #[trigger] self.contents().dom().contains(k) implies self.contents()[k] == base.insert(key, value@)[k] by {
                        let j = choose|j: int| 0 <= j < self.entries@.len() && #[trigger] self.entries@[j].0 == k;
                        self.lemma_lookup(j);
                        if k != key {
                            before.lemma_lookup(j);
                        }
                    }
                    assert(self.contents() =~= base.insert(key, value@));
                }
            },
            None => {
                es.push((key, value));
                self.entries = es;
                proof {
                    assert forall|a: int, b: int| 0 <= a < b < self.entries@.len() implies (#[trigger] self.entries@[a]).0 != (#[trigger] self.entries@[b]).0 by {
                        if b < before.entries@.len() {
                            assert(before.entries@[a].0 != before.entries@[b].0);
                        }
                    }
                    let n = before.entries@.len() as int;
                    assert forall|k: (u64, u64)| #[trigger] self.contents().dom().contains(k) == base.insert(key, value@).dom().contains(k) by {
                        if k != key && base.dom().contains(k) {
                            let j = choose|j: int| 0 <= j < before.entries@.len() && #[trigger] before.entries@[j].0 == k;
                            assert(self.entries@[j].0 == k);
                        }
                        if k == key {
                            assert(self.entries@[n].0 == k);
                        }
                        if self.contents().dom().contains(k) && k != key {
                            let j = choose|j: int| 0 <= j < self.entries@.len() && #[trigger] self.entries@[j].0 == k;
                            assert(before.entries@[j].0 == k);
                        }
                    }
                    assert forall|k: (u64, u64)| #[trigger] self.contents().dom().contains(k) implies self.contents()[k] == base.insert(key, value@)[k] by {
                        let j = choose|j: int| 0 <= j < self.entries@.len() && #[trigger] self.entries@[j].0 == k;
                        self.lemma_lookup(j);
                        if k != key {
                            before.lemma_lookup(j);
                        }
                    }
                    assert(self.contents() =~= base.insert(key, value@));
                }
            },
        }
    }
}

} // verus!
