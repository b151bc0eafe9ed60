//! Cursors over sorted key-value runs, and the merge of several runs in which
//! the run listed first wins for a key held by more than one.
use vstd::prelude::*;
use crate::error::FlashStoreError;
use crate::keys::{lex_lt, key_lt};
use crate::types::{Entry, ValueType};
use crate::sstable::block::entry_view;
use crate::memtable::skiplist::{SkipList, SkipListIter, entry_for, holds_key, keys_sorted, lemma_entry_for_at};

verus! {

pub type Pair = (Seq<u8>, Seq<u8>);

/// A cursor over a run of key-value pairs.
pub trait StorageIterator {
    /// Pairs not yet consumed, the current one first.
    spec fn rest(&self) -> Seq<Pair>;

    fn valid(&self) -> (r: bool)
        ensures
            r == (self.rest().len() > 0);

    fn next(&mut self) -> (r: Result<(), FlashStoreError>)
        ensures
            r is Ok,
            final(self).rest() == (if old(self).rest().len() > 0 { old(self).rest().drop_first() } else { old(self).rest() });

    fn key(&self) -> (r: &Vec<u8>)
        requires
            self.rest().len() > 0,
        ensures
            r@ == self.rest()[0].0;

    fn value(&self) -> (r: &Vec<u8>)
        requires
            self.rest().len() > 0,
        ensures
            r@ == self.rest()[0].1;
}

/// The part of a run from index `i` on (empty past its end).
pub open spec fn tail_from(s: Seq<Pair>, i: int) -> Seq<Pair> {
    if 0 <= i <= s.len() { s.skip(i) } else { Seq::empty() }
}

pub open spec fn entry_pairs(es: Seq<Entry>) -> Seq<Pair> {
    es.map_values(|e: Entry| (e.key@, e.value@))
}

/// Cursor over the entries of a table (deletions included, with empty values).
pub struct SSTableIterator {
    pub entries: Vec<Entry>,
    pub index: usize,
}

impl SSTableIterator {
    pub fn new(entries: Vec<Entry>) -> (it: SSTableIterator)
        ensures
            it.rest() == entry_pairs(entries@),
    {
        let it = SSTableIterator { entries, index: 0 };
        assert(tail_from(entry_pairs(it.entries@), 0) =~= entry_pairs(it.entries@));
        it
    }
}

impl StorageIterator for SSTableIterator {
    open spec fn rest(&self) -> Seq<Pair> {
        tail_from(entry_pairs(self.entries@), self.index as int)
    }

    fn valid(&self) -> (r: bool) {
        self.index < self.entries.len()
    }

    fn next(&mut self) -> (r: Result<(), FlashStoreError>) {
        if self.index < self.entries.len() {
            self.index = self.index + 1;
            assert(entry_pairs(self.entries@).skip(self.index as int) =~= entry_pairs(self.entries@).skip(self.index - 1).drop_first());
        }
        Ok(())
    }

    fn key(&self) -> (r: &Vec<u8>) {
        &self.entries[self.index].key
    }

    fn value(&self) -> (r: &Vec<u8>) {
        &self.entries[self.index].value
    }
}

/// Cursor over a snapshot of a memtable.
pub struct MemtableIterator {
    pub iter: SkipListIter,
}

impl MemtableIterator {
    pub fn new(iter: SkipListIter) -> (it: MemtableIterator)
        ensures
            it.iter == iter,
    {
        MemtableIterator { iter }
    }
}

impl StorageIterator for MemtableIterator {
    open spec fn rest(&self) -> Seq<Pair> {
        tail_from(entry_pairs(self.iter.entries@), self.iter.index as int)
    }

    fn valid(&self) -> (r: bool) {
        self.iter.valid()
    }

    fn next(&mut self) -> (r: Result<(), FlashStoreError>) {
        let ghost before = self.iter.index;
        self.iter.next();
        proof {
            if before < self.iter.entries@.len() {
                assert(entry_pairs(self.iter.entries@).skip(self.iter.index as int) =~= entry_pairs(self.iter.entries@).skip(before as int).drop_first());
            }
        }
        Ok(())
    }

    fn key(&self) -> (r: &Vec<u8>) {
        &self.iter.entries[self.iter.index].key
    }

    fn value(&self) -> (r: &Vec<u8>) {
        &self.iter.entries[self.iter.index].value
    }
}

/// Value of the last pair carrying `k` in a run.
pub open spec fn last_value(s: Seq<Pair>, k: Seq<u8>) -> Option<Seq<u8>>
    decreases s.len(),
{
    if s.len() == 0 {
        None
    } else if s.last().0 == k {
        Some(s.last().1)
    } else {
        last_value(s.drop_last(), k)
    }
}

/// Value a merge gives `k`: taken from the first run that holds the key (its last
/// pair for the key, the only one in a run without repeated keys).
pub open spec fn merge_winner(srcs: Seq<Seq<Pair>>, k: Seq<u8>) -> Option<Seq<u8>>
    decreases srcs.len(),
{
    if srcs.len() == 0 {
        None
    } else {
        match last_value(srcs[0], k) {
            Some(v) => Some(v),
            None => merge_winner(srcs.drop_first(), k),
        }
    }
}

pub open spec fn pairs_strictly_sorted(s: Seq<Pair>) -> bool {
    forall|i: int, j: int| 0 <= i < j < s.len() ==> lex_lt(#[trigger] s[i].0, #[trigger] s[j].0)
}

/// The merged run of `srcs`: ascending keys, each key of any run once, with its winning value.
pub open spec fn is_merge_of(out: Seq<Pair>, srcs: Seq<Seq<Pair>>) -> bool {
    &&& pairs_strictly_sorted(out)
    &&& forall|i: int| 0 <= i < out.len() ==> merge_winner(srcs, #[trigger] out[i].0) == Some(out[i].1)
    &&& forall|k: Seq<u8>| #[trigger] merge_winner(srcs, k) is Some ==> exists|i: int| 0 <= i < out.len() && out[i].0 == k
}

/// Merge of several cursors, the first cursor listed taking precedence for a key
/// held by several; the runs are read in full when the merge is built.
pub struct MergingIterator {
    pub merged: Vec<(Vec<u8>, Vec<u8>)>,
    pub index: usize,
    pub sources: Ghost<Seq<Seq<Pair>>>,
}

pub open spec fn out_pairs(v: Seq<(Vec<u8>, Vec<u8>)>) -> Seq<Pair> {
    v.map_values(|p: (Vec<u8>, Vec<u8>)| (p.0@, p.1@))
}

pub open spec fn rests_of<I: StorageIterator>(iters: Seq<I>) -> Seq<Seq<Pair>> {
    iters.map_values(|it: I| it.rest())
}

/// Reads a cursor to its end.
pub fn drain<I: StorageIterator>(it: I) -> (r: Vec<(Vec<u8>, Vec<u8>)>)
    ensures
        out_pairs(r@) == it.rest(),
{
    let mut it = it;
    let ghost all = it.rest();
    let mut out: Vec<(Vec<u8>, Vec<u8>)> = Vec::new();
    while it.valid()
        invariant
            all == out_pairs(out@) + it.rest(),
        decreases it.rest().len(),
    {
        let k = it.key().clone();
        let v = it.value().clone();
        let ghost head = it.rest()[0];
        let ghost old_out = out@;
        let ghost old_rest = it.rest();
        out.push((k, v));
        let _ = it.next();
        proof {
            assert(out_pairs(out@) =~= out_pairs(old_out).push(head));
            assert(old_rest =~= seq![head] + old_rest.drop_first());
            assert(out_pairs(old_out) + old_rest =~= out_pairs(out@) + it.rest());
        }
    }
    assert(out_pairs(out@) + it.rest() =~= out_pairs(out@));
    out
}

impl MergingIterator {
    /// Builds the merge of `iters`; the cursor listed first wins for a shared key.
    pub fn new<I: StorageIterator>(iters: Vec<I>) -> (m: MergingIterator)
        ensures
            m.sources@ == rests_of(iters@),
            is_merge_of(m.rest(), m.sources@),
    {
        let ghost srcs = rests_of(iters@);
        let mut runs: Vec<Vec<(Vec<u8>, Vec<u8>)>> = Vec::new();
        let mut iters = iters;
        let ghost orig = iters@;
        let mut taken: usize = 0;
        while iters.len() > 0
            invariant
                srcs == rests_of(orig),
                runs@.len() + iters@.len() == orig.len(),
                iters@ == orig.skip(runs@.len() as int),
                forall|j: int| 0 <= j < runs@.len() ==> #[trigger] out_pairs(runs@[j]@) == srcs[j],
            decreases iters@.len(),
        {
            let ghost before = iters@;
            let it = iters.remove(0);
            proof {
                assert(it == orig[runs@.len() as int]);
            }
            let ghost j = runs@.len() as int;
            let run = drain(it);
            runs.push(run);
            proof {
                assert(iters@ =~= orig.skip(runs@.len() as int));
            }
        }
        let mut t = SkipList::new();
        let mut i: usize = runs.len();
        while i > 0
            invariant
                i <= runs@.len(),
                runs@.len() == srcs.len(),
                forall|j: int| 0 <= j < runs@.len() ==> #[trigger] out_pairs(runs@[j]@) == srcs[j],
                t.wf(),
                forall|e: int| 0 <= e < t.entries@.len() ==> (#[trigger] t.entries@[e]).value_type == ValueType::Value,
                forall|k: Seq<u8>| #[trigger] entry_value(t.entries@, k) == merge_winner(srcs.skip(i as int), k),
            decreases i,
        {
            i = i - 1;
            let run = &runs[i];
            let ghost before_t = t.entries@;
            let mut p: usize = 0;
            while p < run.len()
                invariant
                    t.wf(),
                    forall|e: int| 0 <= e < t.entries@.len() ==> (#[trigger] t.entries@[e]).value_type == ValueType::Value,
                    p <= run@.len(),
                    forall|k: Seq<u8>| #[trigger] entry_value(t.entries@, k) == (match last_value(out_pairs(run@).take(p as int), k) {
                        Some(v) => Some(v),
                        None => entry_value(before_t, k),
                    }),
                decreases run@.len() - p,
            {
                let ghost prev_t = t.entries@;
                let kc = run[p].0.clone();
                let vc = run[p].1.clone();
                assert(kc@ =~= run@[p as int].0@);
                assert(vc@ =~= run@[p as int].1@);
                let e = Entry::new_value(kc, vc, 0);
                let ghost ek = e.key@;
                t.insert(e);
                proof {
                    assert(out_pairs(run@).take(p + 1).drop_last() =~= out_pairs(run@).take(p as int));
                    assert(out_pairs(run@).take(p + 1).last() == out_pairs(run@)[p as int]);
                    assert(out_pairs(run@)[p as int] == (run@[p as int].0@, run@[p as int].1@));
                    assert(entry_for(t.entries@, ek) == Some(entry_view(e)));
                    assert forall|k: Seq<u8>| #[trigger] entry_value(t.entries@, k) == (match last_value(out_pairs(run@).take(p + 1), k) {
                        Some(v) => Some(v),
                        None => entry_value(before_t, k),
                    }) by {
                        if k != ek {
                            assert(entry_for(t.entries@, k) == entry_for(prev_t, k));
                            assert(entry_value(t.entries@, k) == entry_value(prev_t, k));
                            assert(last_value(out_pairs(run@).take(p + 1), k) == last_value(out_pairs(run@).take(p as int), k));
                        } else {
                            assert(last_value(out_pairs(run@).take(p + 1), k) == Some(run@[p as int].1@));
                        }
                    }
                    lemma_all_values_after_insert(prev_t, t.entries@, e);
                }
                p = p + 1;
            }
            proof {
                assert(out_pairs(run@).take(run@.len() as int) =~= out_pairs(run@));
                assert(srcs.skip(i as int).drop_first() =~= srcs.skip(i + 1));
                assert(srcs.skip(i as int)[0] == srcs[i as int]);
            }
        }
        let mut merged: Vec<(Vec<u8>, Vec<u8>)> = Vec::new();
        let n = t.entries.len();
        let mut q: usize = 0;
        while q < n
            invariant
                t.wf(),
                n == t.entries@.len(),
                q <= n,
                merged@.len() == q,
                forall|j: int| 0 <= j < q ==> (#[trigger] merged@[j]).0@ == t.entries@[j].key@ && merged@[j].1@ == t.entries@[j].value@,
            decreases n - q,
        {
            merged.push((t.entries[q].key.clone(), t.entries[q].value.clone()));
            q = q + 1;
        }
        let m = MergingIterator { merged, index: 0, sources: Ghost(srcs) };
        proof {
            assert(srcs.skip(0) =~= srcs);
            assert(tail_from(out_pairs(m.merged@), 0) =~= out_pairs(m.merged@));
            let out = m.rest();
            assert forall|a: int, b: int| 0 <= a < b < out.len() implies lex_lt(#[trigger] out[a].0, #[trigger] out[b].0) by {
                assert(lex_lt(t.entries@[a].key@, t.entries@[b].key@));
            }
            assert forall|a: int| 0 <= a < out.len() implies merge_winner(srcs, #[trigger] out[a].0) == Some(out[a].1) by {
                lemma_entry_for_at(t.entries@, a);
                assert(entry_value(t.entries@, out[a].0) == merge_winner(srcs, out[a].0));
            }
            assert forall|k: Seq<u8>| #[trigger] merge_winner(srcs, k) is Some implies exists|a: int| 0 <= a < out.len() && out[a].0 == k by {
                assert(entry_value(t.entries@, k) == merge_winner(srcs, k));
                let a = choose|a: int| 0 <= a < t.entries@.len() && #[trigger] t.entries@[a].key@ == k;
                assert(out[a].0 == k);
            }
        }
        m
    }
}

/// Value stored under `k` in a table of live values.
pub open spec fn entry_value(es: Seq<Entry>, k: Seq<u8>) -> Option<Seq<u8>> {
    match entry_for(es, k) {
        Some(v) => Some(v.1),
        None => None,
    }
}

proof fn lemma_all_values_after_insert(before: Seq<Entry>, after: Seq<Entry>, e: Entry)
    requires
        forall|i: int| 0 <= i < before.len() ==> (#[trigger] before[i]).value_type == ValueType::Value,
        e.value_type == ValueType::Value,
        (exists|i: int| 0 <= i < before.len() && after == before.update(i, e))
            || (exists|i: int| 0 <= i <= before.len() && after == before.insert(i, e)),
    ensures
        forall|i: int| 0 <= i < after.len() ==> (#[trigger] after[i]).value_type == ValueType::Value,
{
    if exists|i: int| 0 <= i < before.len() && after == before.update(i, e) {
        let i = choose|i: int| 0 <= i < before.len() && after == before.update(i, e);
        assert forall|j: int| 0 <= j < after.len() implies (#[trigger] after[j]).value_type == ValueType::Value by {
            if j != i {
                assert(after[j] == before[j]);
            }
        }
    } else {
        let i = choose|i: int| 0 <= i <= before.len() && after == before.insert(i, e);
        assert forall|j: int| 0 <= j < after.len() implies (#[trigger] after[j]).value_type == ValueType::Value by {
            if j < i {
                assert(after[j] == before[j]);
            } else if j > i {
                assert(after[j] == before[j - 1]);
            }
        }
    }
}

impl StorageIterator for MergingIterator {
    open spec fn rest(&self) -> Seq<Pair> {
        tail_from(out_pairs(self.merged@), self.index as int)
    }

    fn valid(&self) -> (r: bool) {
        self.index < self.merged.len()
    }

    fn next(&mut self) -> (r: Result<(), FlashStoreError>) {
        if self.index < self.merged.len() {
            self.index = self.index + 1;
            assert(out_pairs(self.merged@).skip(self.index as int) =~= out_pairs(self.merged@).skip(self.index - 1).drop_first());
        }
        Ok(())
    }

    fn key(&self) -> (r: &Vec<u8>) {
        &self.merged[self.index].0
    }

    fn value(&self) -> (r: &Vec<u8>) {
        &self.merged[self.index].1
    }
}

} // verus!
