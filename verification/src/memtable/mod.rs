//! In-memory table buffering recent writes and deletes before they are flushed to a table file.
pub mod skiplist;

use vstd::prelude::*;
use crate::types::{Entry, ValueType, sizes_sum, lemma_sizes_sum_insert, lemma_sizes_sum_update, lemma_sizes_sum_nonneg};
use crate::sstable::block::{EntryView, entry_view};
use crate::sstable::reader::{lookup_answer, answer_view};
use skiplist::{SkipList, SkipListIter, entry_for, keys_sorted};

verus! {

/// Buffered writes with the total size they are charged.
pub struct MemTable {
    pub id: usize,
    pub table: SkipList,
    pub size_bytes: usize,
}

impl MemTable {
    /// The table is sorted and its size is the sum of the sizes of its entries.
    pub open spec fn wf(self) -> bool {
        &&& self.table.wf()
        &&& self.size_bytes == sizes_sum(self.table.entries@)
    }

    /// What a lookup of `key` answers: the value, a deletion, or nothing.
    pub open spec fn answer(self, key: Seq<u8>) -> Option<Option<Seq<u8>>> {
        lookup_answer(entry_for(self.table.entries@, key))
    }

    pub fn new(id: usize) -> (m: MemTable)
        ensures
            m.wf(),
            m.id == id,
            m.table.entries@.len() == 0,
            m.size_bytes == 0,
    {
        MemTable { id, table: SkipList::new(), size_bytes: 0 }
    }

    pub fn id(&self) -> (r: usize)
        ensures
            r == self.id,
    {
        self.id
    }

    /// Adjusts the size by the difference between the new entry's size and the replaced one's.
    fn update_size_bytes(&mut self, new_size: usize, old_size: usize)
        requires
            old(self).size_bytes + new_size - old_size <= usize::MAX,
            old(self).size_bytes + new_size - old_size >= 0,
        ensures
            final(self).size_bytes == old(self).size_bytes + new_size - old_size,
            final(self).table == old(self).table,
            final(self).id == old(self).id,
    {
        if new_size > old_size {
            self.size_bytes = self.size_bytes + (new_size - old_size);
        } else if old_size > new_size {
            self.size_bytes = self.size_bytes - (old_size - new_size);
        }
    }

    fn insert_entry(&mut self, entry: Entry)
        requires
            old(self).wf(),
            entry.spec_size() <= usize::MAX,
            sizes_sum(old(self).table.entries@) + entry.spec_size() <= usize::MAX,
        ensures
            final(self).wf(),
            final(self).id == old(self).id,
            final(self).size_bytes <= old(self).size_bytes + entry.spec_size(),
            entry_for(final(self).table.entries@, entry.key@) == Some(entry_view(entry)),
            forall|k: Seq<u8>| k != entry.key@ ==> #[trigger] entry_for(final(self).table.entries@, k)
                == entry_for(old(self).table.entries@, k),
    {
        let new_size = entry.estimated_size();
        let ghost old_es = self.table.entries@;
        let prev = self.table.insert(entry);
        proof { lemma_sizes_sum_nonneg(old_es); }
        match prev {
            Some(p) => {
                proof {
                    let i = choose|i: int| 0 <= i < old_es.len() && self.table.entries@ == old_es.update(i, entry)
                        && old_es[i] == p;
                    lemma_sizes_sum_update(old_es, i, entry);
                    lemma_sizes_sum_le_elem(old_es, i);
                    lemma_sizes_sum_nonneg(self.table.entries@);
                }
                let old_size = p.estimated_size();
                self.update_size_bytes(new_size, old_size);
            },
            None => {
                proof {
                    let i = choose|i: int| 0 <= i <= old_es.len() && self.table.entries@ == old_es.insert(i, entry);
                    lemma_sizes_sum_insert(old_es, i, entry);
                }
                self.update_size_bytes(new_size, 0);
            },
        }
    }

    /// Records `key -> value` at sequence number `seq_no`.
    pub fn put(&mut self, key: Vec<u8>, value: Vec<u8>, seq_no: u64)
        requires
            old(self).wf(),
            old(self).size_bytes + key@.len() + value@.len() + 9 <= usize::MAX,
        ensures
            final(self).wf(),
            final(self).id == old(self).id,
            final(self).size_bytes <= old(self).size_bytes + key@.len() + value@.len() + 9,
            entry_for(final(self).table.entries@, key@) == Some((key@, value@, ValueType::Value, seq_no)),
            forall|k: Seq<u8>| k != key@ ==> #[trigger] final(self).answer(k) == old(self).answer(k),
            final(self).answer(key@) == Some(Some(value@)),
    {
        let entry = Entry::new_value(key, value, seq_no);
        let ghost k = entry.key@;
        self.insert_entry(entry);
        proof {
            assert forall|k2: Seq<u8>| k2 != k implies #[trigger] self.answer(k2) == old(self).answer(k2) by {
                assert(entry_for(self.table.entries@, k2) == entry_for(old(self).table.entries@, k2));
            }
        }
    }

    /// Records a deletion of `key` at sequence number `seq_no`.
    pub fn delete(&mut self, key: Vec<u8>, seq_no: u64)
        requires
            old(self).wf(),
            old(self).size_bytes + key@.len() + 9 <= usize::MAX,
        ensures
            final(self).wf(),
            final(self).id == old(self).id,
            final(self).size_bytes <= old(self).size_bytes + key@.len() + 9,
            entry_for(final(self).table.entries@, key@) == Some((key@, Seq::<u8>::empty(), ValueType::Tombstone, seq_no)),
            forall|k: Seq<u8>| k != key@ ==> #[trigger] final(self).answer(k) == old(self).answer(k),
            final(self).answer(key@) == Some(None::<Seq<u8>>),
    {
        let entry = Entry::new_tombstone(key, seq_no);
        let ghost k = entry.key@;
        self.insert_entry(entry);
        proof {
            assert forall|k2: Seq<u8>| k2 != k implies #[trigger] self.answer(k2) == old(self).answer(k2) by {
                assert(entry_for(self.table.entries@, k2) == entry_for(old(self).table.entries@, k2));
            }
        }
    }

    pub fn len(&self) -> (r: usize)
        ensures
            r == self.table.entries@.len(),
    {
        self.table.len()
    }

    pub fn is_empty(&self) -> (r: bool)
        ensures
            r == (self.table.entries@.len() == 0),
    {
        self.table.is_empty()
    }

    /// Looks `key` up: `Some(Some(v))` for a value, `Some(None)` for a deletion,
    /// `None` when the table holds nothing for the key.
    pub fn get(&self, key: &[u8]) -> (r: Option<Option<Vec<u8>>>)
        requires
            self.wf(),
        ensures
            answer_view(r) == self.answer(key@),
    {
        match self.table.get(key) {
            Some(e) => {
                if e.is_tombstone() {
                    Some(None)
                } else {
                    Some(Some(e.value))
                }
            },
            None => None,
        }
    }

    /// Total size charged to the entries held.
    pub fn approximate_size(&self) -> (r: usize)
        ensures
            r == self.size_bytes,
    {
        self.size_bytes
    }

    /// A snapshot iterator over the entries in ascending key order.
    pub fn iter(&self) -> (it: SkipListIter)
        ensures
            crate::sstable::block::entry_views(it.entries@) == crate::sstable::block::entry_views(self.table.entries@),
            it.index == 0,
    {
        self.table.iter()
    }
}

proof fn lemma_sizes_sum_le_elem(es: Seq<Entry>, i: int)
    requires
        0 <= i < es.len(),
    ensures
        es[i].spec_size() <= sizes_sum(es),
    decreases es.len(),
{
    lemma_sizes_sum_nonneg(es.drop_last());
    if i < es.len() - 1 {
        lemma_sizes_sum_le_elem(es.drop_last(), i);
    }
}

} // verus!
