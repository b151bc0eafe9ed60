//! Core entry types shared by the log, the in-memory table and the on-disk tables.
use vstd::prelude::*;

verus! {

/// Kind of a versioned entry: a live value or a deletion marker.
#[derive(Debug, Clone, Copy, PartialEq, Eq, Structural)]
pub enum ValueType {
    Value,
    Tombstone,
}

/// A versioned key-value entry.
#[derive(Debug, Clone, PartialEq, Eq)]
pub struct Entry {
    pub key: Vec<u8>,
    pub value: Vec<u8>,
    pub value_type: ValueType,
    pub seq_no: u64,
}

impl Entry {
    /// Size charged to an entry: key and value bytes, the sequence number and the type byte.
    pub open spec fn spec_size(self) -> nat {
        self.key@.len() + self.value@.len() + 9
    }

    pub fn new_value(key: Vec<u8>, value: Vec<u8>, seq_no: u64) -> (e: Entry)
        ensures
            e.key@ == key@,
            e.value@ == value@,
            e.value_type == ValueType::Value,
            e.seq_no == seq_no,
    {
        Entry { key, value, value_type: ValueType::Value, seq_no }
    }

    pub fn new_tombstone(key: Vec<u8>, seq_no: u64) -> (e: Entry)
        ensures
            e.key@ == key@,
            e.value@ == Seq::<u8>::empty(),
            e.value_type == ValueType::Tombstone,
            e.seq_no == seq_no,
    {
        Entry { key, value: Vec::new(), value_type: ValueType::Tombstone, seq_no }
    }

    pub fn is_tombstone(&self) -> (r: bool)
        ensures
            r == (self.value_type == ValueType::Tombstone),
    {
        match self.value_type {
            ValueType::Tombstone => true,
            ValueType::Value => false,
        }
    }

    pub fn estimated_size(&self) -> (r: usize)
        requires
            self.spec_size() <= usize::MAX,
        ensures
            r == self.spec_size(),
    {
        self.key.len() + self.value.len() + 9
    }

    /// Copies the entry field by field.
    pub fn duplicate(&self) -> (e: Entry)
        ensures
            e.key@ == self.key@,
            e.value@ == self.value@,
            e.value_type == self.value_type,
            e.seq_no == self.seq_no,
    {
        Entry {
            key: self.key.clone(),
            value: self.value.clone(),
            value_type: self.value_type,
            seq_no: self.seq_no,
        }
    }
}

/// Total size charged to a run of entries.
pub open spec fn sizes_sum(es: Seq<Entry>) -> int
    decreases es.len(),
{
    if es.len() == 0 {
        0
    } else {
        sizes_sum(es.drop_last()) + es.last().spec_size()
    }
}

pub proof fn lemma_sizes_sum_nonneg(es: Seq<Entry>)
    ensures
        sizes_sum(es) >= 0,
    decreases es.len(),
{
    if es.len() > 0 {
        lemma_sizes_sum_nonneg(es.drop_last());
    }
}

/// The size of two runs is the sum of their sizes.
pub proof fn lemma_sizes_sum_append(a: Seq<Entry>, b: Seq<Entry>)
    ensures
        sizes_sum(a + b) == sizes_sum(a) + sizes_sum(b),
    decreases b.len(),
{
    if b.len() == 0 {
        assert(a + b =~= a);
    } else {
        lemma_sizes_sum_append(a, b.drop_last());
        assert((a + b).drop_last() =~= a + b.drop_last());
    }
}

/// Inserting an entry into a run adds its size.
pub proof fn lemma_sizes_sum_insert(es: Seq<Entry>, i: int, e: Entry)
    requires
        0 <= i <= es.len(),
    ensures
        sizes_sum(es.insert(i, e)) == sizes_sum(es) + e.spec_size(),
    decreases es.len(),
{
    if i == es.len() {
        assert(es.insert(i, e).drop_last() =~= es);
    } else {
        assert(es.insert(i, e).drop_last() =~= es.drop_last().insert(i, e));
        lemma_sizes_sum_insert(es.drop_last(), i, e);
    }
}

/// Replacing an entry of a run swaps its size for the new one's.
pub proof fn lemma_sizes_sum_update(es: Seq<Entry>, i: int, e: Entry)
    requires
        0 <= i < es.len(),
    ensures
        sizes_sum(es.update(i, e)) == sizes_sum(es) - es[i].spec_size() + e.spec_size(),
    decreases es.len(),
{
    if i == es.len() - 1 {
        assert(es.update(i, e).drop_last() =~= es.drop_last());
    } else {
        assert(es.update(i, e).drop_last() =~= es.drop_last().update(i, e));
        lemma_sizes_sum_update(es.drop_last(), i, e);
    }
}

} // verus!
