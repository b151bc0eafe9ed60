//! Summaries of the entries of a table file.
use vstd::prelude::*;
use crate::types::{Entry, ValueType};

verus! {

/// The number of entries of a kind.
pub open spec fn count_of(es: Seq<Entry>, t: ValueType) -> nat
    decreases es.len(),
{
    if es.len() == 0 {
        0
    } else {
        count_of(es.drop_last(), t) + (if es.last().value_type == t { 1nat } else { 0nat })
    }
}

/// What an inspection reports of a table's entries.
#[derive(Debug, Clone)]
pub struct TableSummary {
    pub total_entries: usize,
    pub values: usize,
    pub tombstones: usize,
    /// Key of the first entry.
    pub smallest_key: Option<Vec<u8>>,
    /// Key of the last entry.
    pub largest_key: Option<Vec<u8>>,
}

/// Counts the entries of each kind and picks the first and last keys.
pub fn summarize_entries(entries: &Vec<Entry>) -> (r: TableSummary)
    ensures
        r.total_entries == entries@.len(),
        r.values == count_of(entries@, ValueType::Value),
        r.tombstones == count_of(entries@, ValueType::Tombstone),
        r.values + r.tombstones == r.total_entries,
        match r.smallest_key { Some(k) => entries@.len() > 0 && k@ == entries@[0].key@, None => entries@.len() == 0 },
        match r.largest_key { Some(k) => entries@.len() > 0 && k@ == entries@.last().key@, None => entries@.len() == 0 },
{
    let mut values: usize = 0;
    let mut tombstones: usize = 0;
    let mut i: usize = 0;
    assert(entries@.take(0) =~= Seq::<Entry>::empty());
    while i < entries.len()
        invariant
            i <= entries@.len(),
            values == count_of(entries@.take(i as int), ValueType::Value),
            tombstones == count_of(entries@.take(i as int), ValueType::Tombstone),
            values + tombstones == i,
        decreases entries@.len() - i,
    {
        assert(entries@.take(i + 1).drop_last() =~= entries@.take(i as int));
        if entries[i].is_tombstone() {
            tombstones = tombstones + 1;
        } else {
            values = values + 1;
        }
        i = i + 1;
    }
    assert(entries@.take(i as int) =~= entries@);
    let n = entries.len();
    let smallest_key = if n > 0 { Some(entries[0].key.clone()) } else { None };
    let largest_key = if n > 0 { Some(entries[n - 1].key.clone()) } else { None };
    TableSummary { total_entries: n, values, tombstones, smallest_key, largest_key }
}

} // verus!
