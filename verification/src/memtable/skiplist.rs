//! Ordered entry table: one entry per key, kept sorted by key.
use vstd::prelude::*;
use crate::keys::{lex_lt, key_lt, key_eq, lemma_lex_total, lemma_lex_irrefl, lemma_lex_trans};
use crate::types::Entry;
use crate::sstable::block::{EntryView, entry_view, entry_views};

verus! {

/// Keys strictly increase along the run.
pub open spec fn keys_sorted(es: Seq<Entry>) -> bool {
    forall|i: int, j: int| 0 <= i < j < es.len() ==> lex_lt(#[trigger] es[i].key@, #[trigger] es[j].key@)
}

pub open spec fn holds_key(es: Seq<Entry>, key: Seq<u8>) -> bool {
    exists|i: int| 0 <= i < es.len() && #[trigger] es[i].key@ == key
}

/// The entry stored under `key`, if any.
pub open spec fn entry_for(es: Seq<Entry>, key: Seq<u8>) -> Option<EntryView> {
    if holds_key(es, key) {
        Some(entry_view(es[choose|i: int| 0 <= i < es.len() && #[trigger] es[i].key@ == key]))
    } else {
        None
    }
}

/// In a sorted run the entry at index `i` is the one stored under its key.
pub proof fn lemma_entry_for_at(es: Seq<Entry>, i: int)
    requires
        keys_sorted(es),
        0 <= i < es.len(),
    ensures
        entry_for(es, es[i].key@) == Some(entry_view(es[i])),
{
    let k = es[i].key@;
    assert(holds_key(es, k));
    let j = choose|i: int| 0 <= i < es.len() && #[trigger] es[i].key@ == k;
    assert(0 <= j < es.len() && es[j].key@ == k);
    lemma_lex_irrefl(k);
    if j < i {
        assert(lex_lt(es[j].key@, es[i].key@));
    } else if j > i {
        assert(lex_lt(es[i].key@, es[j].key@));
    }
    assert(j == i);
}

/// The entries of a memtable, sorted by key.
pub struct SkipList {
    pub entries: Vec<Entry>,
}

impl SkipList {
    pub open spec fn wf(self) -> bool {
        keys_sorted(self.entries@)
    }

    pub fn new() -> (s: SkipList)
        ensures
            s.wf(),
            s.entries@.len() == 0,
    {
        SkipList { entries: Vec::new() }
    }

    /// Index of the first entry whose key is not below `key`.
    fn lower_bound(&self, key: &[u8]) -> (i: usize)
        requires
            self.wf(),
        ensures
            i <= self.entries@.len(),
            forall|j: int| 0 <= j < i ==> lex_lt(#[trigger] self.entries@[j].key@, key@),
            forall|j: int| i <= j < self.entries@.len() ==> !lex_lt(#[trigger] self.entries@[j].key@, key@),
    {
        let mut lo: usize = 0;
        let mut hi: usize = self.entries.len();
        while lo < hi
            invariant
                self.wf(),
                lo <= hi <= self.entries@.len(),
                forall|j: int| 0 <= j < lo ==> lex_lt(#[trigger] self.entries@[j].key@, key@),
                forall|j: int| hi <= j < self.entries@.len() ==> !lex_lt(#[trigger] self.entries@[j].key@, key@),
            decreases hi - lo,
        {
            let mid = lo + (hi - lo) / 2;
            if key_lt(self.entries[mid].key.as_slice(), key) {
                proof {
                    assert forall|j: int| 0 <= j < mid + 1 implies lex_lt(#[trigger] self.entries@[j].key@, key@) by {
                        if j < mid {
                            lemma_lex_trans(self.entries@[j].key@, self.entries@[mid as int].key@, key@);
                        }
                    }
                }
                lo = mid + 1;
            } else {
                proof {
                    assert forall|j: int| mid <= j < self.entries@.len() implies !lex_lt(#[trigger] self.entries@[j].key@, key@) by {
                        if j > mid {
                            let a = self.entries@[mid as int].key@;
                            let b = self.entries@[j].key@;
                            assert(lex_lt(a, b));
                            if lex_lt(b, key@) {
                                lemma_lex_trans(a, b, key@);
                            }
                        }
                    }
                }
                hi = mid;
            }
        }
        lo
    }

    /// Stores an entry under its key, replacing and returning the entry stored there before.
    pub fn insert(&mut self, entry: Entry) -> (r: Option<Entry>)
        requires
            old(self).wf(),
        ensures
            final(self).wf(),
            match r {
                Some(e) => entry_for(old(self).entries@, entry.key@) == Some(entry_view(e))
                    && final(self).entries@.len() == old(self).entries@.len()
                    && exists|i: int| 0 <= i < old(self).entries@.len() && final(self).entries@ == old(self).entries@.update(i, entry)
                        && old(self).entries@[i] == e,
                None => entry_for(old(self).entries@, entry.key@) is None
                    && exists|i: int| 0 <= i <= old(self).entries@.len() && final(self).entries@ == old(self).entries@.insert(i, entry),
            },
            entry_for(final(self).entries@, entry.key@) == Some(entry_view(entry)),
            forall|k: Seq<u8>| k != entry.key@ ==> #[trigger] entry_for(final(self).entries@, k) == entry_for(old(self).entries@, k),
    {
        let ghost old_es = self.entries@;
        let i = self.lower_bound(entry.key.as_slice());
        if i < self.entries.len() && key_eq(self.entries[i].key.as_slice(), entry.key.as_slice()) {
            let prev = self.entries.remove(i);
            self.entries.insert(i, entry);
            proof {
                assert(self.entries@ =~= old_es.update(i as int, entry));
                lemma_entry_for_at(old_es, i as int);
                lemma_update_keeps_sorted(old_es, i as int, entry);
                lemma_entry_for_at(self.entries@, i as int);
                lemma_entry_for_others_update(old_es, i as int, entry);
            }
            Some(prev)
        } else {
            self.entries.insert(i, entry);
            proof {
                assert(!holds_key(old_es, entry.key@)) by {
                    if holds_key(old_es, entry.key@) {
                        let j = choose|j: int| 0 <= j < old_es.len() && #[trigger] old_es[j].key@ == entry.key@;
                        lemma_lex_irrefl(entry.key@);
                        if j > i {
                            assert(lex_lt(old_es[i as int].key@, old_es[j].key@));
                            lemma_lex_total(old_es[i as int].key@, entry.key@);
                        }
                    }
                }
                lemma_insert_keeps_sorted(old_es, i as int, entry);
                lemma_entry_for_at(self.entries@, i as int);
                lemma_entry_for_others_insert(old_es, i as int, entry);
            }
            None
        }
    }

    /// The entry stored under `key`.
    pub fn get(&self, key: &[u8]) -> (r: Option<Entry>)
        requires
            self.wf(),
        ensures
            match r {
                Some(e) => entry_for(self.entries@, key@) == Some(entry_view(e)),
                None => entry_for(self.entries@, key@) is None,
            },
    {
        let i = self.lower_bound(key);
        if i < self.entries.len() && key_eq(self.entries[i].key.as_slice(), key) {
            proof { lemma_entry_for_at(self.entries@, i as int); }
            Some(self.entries[i].duplicate())
        } else {
            proof {
                if holds_key(self.entries@, key@) {
                    let j = choose|j: int| 0 <= j < self.entries@.len() && #[trigger] self.entries@[j].key@ == key@;
                    lemma_lex_irrefl(key@);
                    if j > i {
                        assert(lex_lt(self.entries@[i as int].key@, self.entries@[j].key@));
                        lemma_lex_total(self.entries@[i as int].key@, key@);
                    }
                }
            }
            None
        }
    }

    pub fn len(&self) -> (r: usize)
        ensures
            r == self.entries@.len(),
    {
        self.entries.len()
    }

    pub fn is_empty(&self) -> (r: bool)
        ensures
            r == (self.entries@.len() == 0),
    {
        self.entries.len() == 0
    }

    /// A snapshot iterator over the entries in key order.
    pub fn iter(&self) -> (it: SkipListIter)
        ensures
            entry_views(it.entries@) == entry_views(self.entries@),
            it.index == 0,
    {
        SkipListIter { entries: copy_entries(&self.entries), index: 0 }
    }
}

/// Copies a run of entries field by field.
pub fn copy_entries(es: &Vec<Entry>) -> (r: Vec<Entry>)
    ensures
        entry_views(r@) == entry_views(es@),
        forall|i: int| 0 <= i < es@.len() ==> #[trigger] r@[i].key@ == es@[i].key@,
        r@.len() == es@.len(),
{
    let mut out: Vec<Entry> = Vec::new();
    let mut i: usize = 0;
    while i < es.len()
        invariant
            i <= es@.len(),
            out@.len() == i,
            forall|j: int| 0 <= j < i ==> #[trigger] entry_view(out@[j]) == entry_view(es@[j]),
            forall|j: int| 0 <= j < i ==> #[trigger] out@[j].key@ == es@[j].key@,
        decreases es@.len() - i,
    {
        out.push(es[i].duplicate());
        i = i + 1;
    }
    assert(entry_views(out@) =~= entry_views(es@));
    out
}

/// Cursor over a snapshot of a table.
pub struct SkipListIter {
    pub entries: Vec<Entry>,
    pub index: usize,
}

impl SkipListIter {
    pub fn valid(&self) -> (r: bool)
        ensures
            r == (self.index < self.entries@.len()),
    {
        self.index < self.entries.len()
    }

    pub fn next(&mut self)
        ensures
            final(self).entries == old(self).entries,
            final(self).index == (if old(self).index < old(self).entries@.len() { old(self).index + 1 } else { old(self).index as int }),
    {
        if self.index < self.entries.len() {
            self.index = self.index + 1;
        }
    }

    pub fn item(&self) -> (r: Option<&Entry>)
        ensures
            self.index < self.entries@.len() ==> r == Some(&self.entries@[self.index as int]),
            self.index >= self.entries@.len() ==> r is None,
    {
        if self.index < self.entries.len() {
            Some(&self.entries[self.index])
        } else {
            None
        }
    }
}

proof fn lemma_update_keeps_sorted(es: Seq<Entry>, i: int, e: Entry)
    requires
        keys_sorted(es),
        0 <= i < es.len(),
        es[i].key@ == e.key@,
    ensures
        keys_sorted(es.update(i, e)),
{
    let n = es.update(i, e);
    assert forall|a: int, b: int| 0 <= a < b < n.len() implies lex_lt(#[trigger] n[a].key@, #[trigger] n[b].key@) by {
        assert(lex_lt(es[a].key@, es[b].key@));
    }
}

proof fn lemma_insert_keeps_sorted(es: Seq<Entry>, i: int, e: Entry)
    requires
        keys_sorted(es),
        0 <= i <= es.len(),
        forall|j: int| 0 <= j < i ==> lex_lt(#[trigger] es[j].key@, e.key@),
        forall|j: int| i <= j < es.len() ==> !lex_lt(#[trigger] es[j].key@, e.key@),
        !holds_key(es, e.key@),
    ensures
        keys_sorted(es.insert(i, e)),
{
    let n = es.insert(i, e);
    assert forall|a: int, b: int| 0 <= a < b < n.len() implies lex_lt(#[trigger] n[a].key@, #[trigger] n[b].key@) by {
        if b < i {
            assert(lex_lt(es[a].key@, es[b].key@));
        } else if b == i {
        } else if a < i {
            assert(lex_lt(es[a].key@, es[b - 1].key@));
        } else if a == i {
            let k = es[b - 1].key@;
            assert(!lex_lt(k, e.key@));
            assert(k != e.key@);
            lemma_lex_total(k, e.key@);
        } else {
            assert(lex_lt(es[a - 1].key@, es[b - 1].key@));
        }
    }
}

proof fn lemma_entry_for_others_update(es: Seq<Entry>, i: int, e: Entry)
    requires
        0 <= i < es.len(),
        es[i].key@ == e.key@,
        keys_sorted(es),
    ensures
        forall|k: Seq<u8>| k != e.key@ ==> #[trigger] entry_for(es.update(i, e), k) == entry_for(es, k),
{
    let n = es.update(i, e);
    assert forall|k: Seq<u8>| k != e.key@ implies #[trigger] entry_for(n, k) == entry_for(es, k) by {
        if holds_key(es, k) {
            let j = choose|j: int| 0 <= j < es.len() && #[trigger] es[j].key@ == k;
            assert(n[j].key@ == k);
            lemma_entry_for_at(es, j);
            lemma_update_keeps_sorted(es, i, e);
            lemma_entry_for_at(n, j);
        } else if holds_key(n, k) {
            let j = choose|j: int| 0 <= j < n.len() && #[trigger] n[j].key@ == k;
            assert(es[j].key@ == k);
        }
    }
}

proof fn lemma_entry_for_others_insert(es: Seq<Entry>, i: int, e: Entry)
    requires
        0 <= i <= es.len(),
        keys_sorted(es),
        keys_sorted(es.insert(i, e)),
    ensures
        forall|k: Seq<u8>| k != e.key@ ==> #[trigger] entry_for(es.insert(i, e), k) == entry_for(es, k),
{
    let n = es.insert(i, e);
    assert forall|k: Seq<u8>| k != e.key@ implies #[trigger] entry_for(n, k) == entry_for(es, k) by {
        if holds_key(es, k) {
            let j = choose|j: int| 0 <= j < es.len() && #[trigger] es[j].key@ == k;
            let jj = if j < i { j } else { j + 1 };
            assert(n[jj] == es[j]);
            lemma_entry_for_at(es, j);
            lemma_entry_for_at(n, jj);
        } else if holds_key(n, k) {
            let j = choose|j: int| 0 <= j < n.len() && #[trigger] n[j].key@ == k;
            if j < i {
                assert(es[j].key@ == k);
            } else {
                assert(j != i);
                assert(es[j - 1].key@ == k);
            }
        }
    }
}

} // verus!
