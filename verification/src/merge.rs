//! Reconciling versions: for every key the entry with the highest sequence
//! number wins (the first seen among equal ones).
use vstd::prelude::*;
use crate::keys::{lex_lt, lex_le, key_lt, lemma_lex_total, lemma_lex_asym, lemma_lex_irrefl};
use crate::types::{Entry, ValueType};
use crate::sstable::block::{EntryView, entry_view, entry_views};
use crate::memtable::skiplist::{SkipList, entry_for, holds_key, keys_sorted, lemma_entry_for_at};

verus! {

/// The winning version of `k` is the live value `v`.
pub open spec fn latest_value_is(es: Seq<Entry>, k: Seq<u8>, v: Seq<u8>) -> bool {
    latest(es, k) matches Some(x) && x.1 == v && x.2 == ValueType::Value
}

pub open spec fn view_seq(v: EntryView) -> u64 {
    v.3
}

/// The winning version of `key` among `es` taken in order: a later entry replaces
/// the current winner only when its sequence number is strictly higher.
pub open spec fn latest(es: Seq<Entry>, key: Seq<u8>) -> Option<EntryView>
    decreases es.len(),
{
    if es.len() == 0 {
        None
    } else {
        let prev = latest(es.drop_last(), key);
        let e = es.last();
        if e.key@ == key && (prev is None || e.seq_no > view_seq(prev->0)) {
            Some(entry_view(e))
        } else {
            prev
        }
    }
}

/// `latest` over entry views: it depends on the entries through their views only.
pub open spec fn latest_view(vs: Seq<EntryView>, key: Seq<u8>) -> Option<EntryView>
    decreases vs.len(),
{
    if vs.len() == 0 {
        None
    } else {
        let prev = latest_view(vs.drop_last(), key);
        let e = vs.last();
        if e.0 == key && (prev is None || e.3 > view_seq(prev->0)) {
            Some(e)
        } else {
            prev
        }
    }
}

pub proof fn lemma_latest_views(es: Seq<Entry>, key: Seq<u8>)
    ensures
        latest(es, key) == latest_view(entry_views(es), key),
    decreases es.len(),
{
    if es.len() > 0 {
        lemma_latest_views(es.drop_last(), key);
        assert(entry_views(es).drop_last() =~= entry_views(es.drop_last()));
        assert(entry_views(es).last() == entry_view(es.last()));
    }
}

/// Keys strictly increase along a run of entry views.
pub open spec fn views_sorted(vs: Seq<EntryView>) -> bool {
    forall|i: int, j: int| 0 <= i < j < vs.len() ==> lex_lt(#[trigger] vs[i].0, #[trigger] vs[j].0)
}

/// The view stored under `key`, if any.
pub open spec fn view_for(vs: Seq<EntryView>, key: Seq<u8>) -> Option<EntryView> {
    if exists|i: int| 0 <= i < vs.len() && #[trigger] vs[i].0 == key {
        Some(vs[choose|i: int| 0 <= i < vs.len() && #[trigger] vs[i].0 == key])
    } else {
        None
    }
}

/// In a sorted run the view at index `i` is the one stored under its key.
pub proof fn lemma_view_for_at(vs: Seq<EntryView>, i: int)
    requires
        views_sorted(vs),
        0 <= i < vs.len(),
    ensures
        view_for(vs, vs[i].0) == Some(vs[i]),
{
    let k = vs[i].0;
    let j = choose|j: int| 0 <= j < vs.len() && #[trigger] vs[j].0 == k;
    lemma_lex_irrefl(k);
    if j < i {
        assert(lex_lt(vs[j].0, vs[i].0));
    } else if j > i {
        assert(lex_lt(vs[i].0, vs[j].0));
    }
}

/// What compaction keeps of `key`: its winning version, unless that is a
/// deletion and deletions are dropped.
pub open spec fn compacted_for(all: Seq<EntryView>, drop_tombstones: bool, key: Seq<u8>) -> Option<EntryView> {
    if drop_tombstones && (latest_view(all, key) matches Some(v) && v.2 == ValueType::Tombstone) {
        None
    } else {
        latest_view(all, key)
    }
}

/// A sorted run and its views agree on what each key stores.
pub proof fn lemma_entry_for_views(es: Seq<Entry>)
    requires
        keys_sorted(es),
    ensures
        views_sorted(entry_views(es)),
        forall|k: Seq<u8>| #[trigger] entry_for(es, k) == view_for(entry_views(es), k),
{
    let vs = entry_views(es);
    assert forall|k: Seq<u8>| #[trigger] entry_for(es, k) == view_for(vs, k) by {
        if holds_key(es, k) {
            let i = choose|i: int| 0 <= i < es.len() && #[trigger] es[i].key@ == k;
            assert(vs[i].0 == k);
            let j = choose|j: int| 0 <= j < vs.len() && #[trigger] vs[j].0 == k;
            assert(es[j].key@ == k);
            lemma_entry_for_at(es, j);
        } else {
            if exists|i: int| 0 <= i < vs.len() && #[trigger] vs[i].0 == k {
                let j = choose|j: int| 0 <= j < vs.len() && #[trigger] vs[j].0 == k;
                assert(es[j].key@ == k);
            }
        }
    }
}

/// Sortedness depends on the keys only.
pub proof fn lemma_keys_sorted_views(a: Seq<Entry>, b: Seq<Entry>)
    requires
        entry_views(a) == entry_views(b),
        keys_sorted(b),
    ensures
        keys_sorted(a),
{
    assert(entry_views(a).len() == a.len() && entry_views(b).len() == b.len());
    assert forall|i: int, j: int| 0 <= i < j < a.len() implies lex_lt(#[trigger] a[i].key@, #[trigger] a[j].key@) by {
        assert(entry_views(a)[i] == entry_views(b)[i]);
        assert(entry_views(a)[j] == entry_views(b)[j]);
        assert(lex_lt(b[i].key@, b[j].key@));
    }
}

pub proof fn lemma_latest_key(es: Seq<Entry>, key: Seq<u8>)
    ensures
        latest(es, key) matches Some(v) ==> v.0 == key,
    decreases es.len(),
{
    if es.len() > 0 {
        lemma_latest_key(es.drop_last(), key);
    }
}

/// Lower bound `start` (inclusive) and upper bound `end` (exclusive), each optional.
pub open spec fn in_range(k: Seq<u8>, start: Option<Seq<u8>>, end: Option<Seq<u8>>) -> bool {
    &&& (start matches Some(s) ==> lex_le(s, k))
    &&& (end matches Some(e) ==> lex_lt(k, e))
}

pub open spec fn opt_view(o: Option<Vec<u8>>) -> Option<Seq<u8>> {
    match o {
        Some(v) => Some(v@),
        None => None,
    }
}

pub open spec fn pairs_sorted(r: Seq<(Vec<u8>, Vec<u8>)>) -> bool {
    forall|i: int, j: int| 0 <= i < j < r.len() ==> lex_lt(#[trigger] r[i].0@, #[trigger] r[j].0@)
}

/// Reconciles a sequence of entries into one sorted table holding the winning
/// version of every key.
pub fn collect_latest(entries: &Vec<Entry>) -> (t: SkipList)
    ensures
        t.wf(),
        forall|k: Seq<u8>| #[trigger] entry_for(t.entries@, k) == latest(entries@, k),
{
    let mut t = SkipList::new();
    let mut i: usize = 0;
    while i < entries.len()
        invariant
            t.wf(),
            i <= entries@.len(),
            forall|k: Seq<u8>| #[trigger] entry_for(t.entries@, k) == latest(entries@.take(i as int), k),
        decreases entries@.len() - i,
    {
        let e = &entries[i];
        let ghost pre = entries@.take(i as int);
        proof {
            assert(entries@.take(i + 1).drop_last() =~= pre);
            assert(entries@.take(i + 1).last() == entries@[i as int]);
        }
        let newer = match t.get(e.key.as_slice()) {
            Some(cur) => e.seq_no > cur.seq_no,
            None => true,
        };
        if newer {
            let ghost before = t.entries@;
            t.insert(e.duplicate());
            proof {
                assert forall|k: Seq<u8>| #[trigger] entry_for(t.entries@, k) == latest(entries@.take(i + 1), k) by {
                    if k != e.key@ {
                        assert(entry_for(t.entries@, k) == entry_for(before, k));
                    }
                }
            }
        } else {
            proof {
                assert forall|k: Seq<u8>| #[trigger] entry_for(t.entries@, k) == latest(entries@.take(i + 1), k) by {
                    assert(entry_for(t.entries@, k) == latest(pre, k));
                }
            }
        }
        i = i + 1;
    }
    assert(entries@.take(entries@.len() as int) =~= entries@);
    t
}

/// Range scan over reconciled versions: the winning live value of every key in
/// `[start, end)`, in ascending key order; deleted keys are left out.
pub fn merge_scan(entries: &Vec<Entry>, start: &Option<Vec<u8>>, end: &Option<Vec<u8>>) -> (r: Vec<(Vec<u8>, Vec<u8>)>)
    ensures
        pairs_sorted(r@),
        forall|i: int| 0 <= i < r@.len() ==> in_range(#[trigger] r@[i].0@, opt_view(*start), opt_view(*end))
            && latest_value_is(entries@, r@[i].0@, r@[i].1@),
        forall|k: Seq<u8>| in_range(k, opt_view(*start), opt_view(*end)) && (#[trigger] latest(entries@, k) matches Some(v)
            && v.2 == ValueType::Value) ==> exists|i: int| 0 <= i < r@.len() && r@[i].0@ == k,
{
    let t = collect_latest(entries);
    let mut r: Vec<(Vec<u8>, Vec<u8>)> = Vec::new();
    let n = t.entries.len();
    let mut i: usize = 0;
    while i < n
        invariant
            t.wf(),
            n == t.entries@.len(),
            forall|k: Seq<u8>| #[trigger] entry_for(t.entries@, k) == latest(entries@, k),
            i <= n,
            forall|a: int, b: int| 0 <= a < b < r@.len() ==> lex_lt(#[trigger] r@[a].0@, #[trigger] r@[b].0@),
            forall|a: int| #![trigger r@[a]] 0 <= a < r@.len() ==> exists|j: int| 0 <= j < i && #[trigger] t.entries@[j].key@ == r@[a].0@,
            forall|a: int| 0 <= a < r@.len() ==> in_range(#[trigger] r@[a].0@, opt_view(*start), opt_view(*end))
                && latest_value_is(entries@, r@[a].0@, r@[a].1@),
            forall|j: int| 0 <= j < i && in_range(#[trigger] t.entries@[j].key@, opt_view(*start), opt_view(*end))
                && t.entries@[j].value_type == ValueType::Value ==> exists|a: int| 0 <= a < r@.len() && r@[a].0@ == t.entries@[j].key@,
        decreases n - i,
    {
        let e = &t.entries[i];
        proof { lemma_entry_for_at(t.entries@, i as int); }
        let mut keep = !e.is_tombstone();
        match start {
            Some(s) => {
                if key_lt(e.key.as_slice(), s.as_slice()) {
                    keep = false;
                }
            },
            None => {},
        }
        match end {
            Some(en) => {
                if !key_lt(e.key.as_slice(), en.as_slice()) {
                    keep = false;
                }
            },
            None => {},
        }
        proof {
            if start.is_some() {
                let s = start->0;
                lemma_lex_total(e.key@, s@);
                lemma_lex_irrefl(s@);
                lemma_lex_asym(e.key@, s@);
            }
        }
        if keep {
            let ghost old_r = r@;
            r.push((e.key.clone(), e.value.clone()));
            proof {
                assert forall|a: int, b: int| 0 <= a < b < r@.len() implies lex_lt(#[trigger] r@[a].0@, #[trigger] r@[b].0@) by {
                    if b == r@.len() - 1 {
                        let j = choose|j: int| 0 <= j < i && #[trigger] t.entries@[j].key@ == old_r[a].0@;
                        assert(lex_lt(t.entries@[j].key@, t.entries@[i as int].key@));
                    }
                }
                assert forall|a: int| #![trigger r@[a]] 0 <= a < r@.len() implies exists|j: int| 0 <= j < i + 1 && #[trigger] t.entries@[j].key@ == r@[a].0@ by {
                    if a < r@.len() - 1 {
                        let j = choose|j: int| 0 <= j < i && #[trigger] t.entries@[j].key@ == old_r[a].0@;
                    } else {
                        assert(t.entries@[i as int].key@ == r@[a].0@);
                    }
                }
                assert forall|j: int| 0 <= j < i + 1 && in_range(#[trigger] t.entries@[j].key@, opt_view(*start), opt_view(*end))
                    && t.entries@[j].value_type == ValueType::Value implies exists|a: int| 0 <= a < r@.len() && r@[a].0@ == t.entries@[j].key@ by {
                    if j < i {
                        let a = choose|a: int| 0 <= a < old_r.len() && old_r[a].0@ == t.entries@[j].key@;
                        assert(r@[a] == old_r[a]);
                    } else {
                        assert(r@[r@.len() - 1].0@ == t.entries@[j].key@);
                    }
                }
            }
        } else {
            proof {
                assert forall|a: int| #![trigger r@[a]] 0 <= a < r@.len() implies exists|j: int| 0 <= j < i + 1 && #[trigger] t.entries@[j].key@ == r@[a].0@ by {
                    let j = choose|j: int| 0 <= j < i && #[trigger] t.entries@[j].key@ == r@[a].0@;
                }
            }
        }
        i = i + 1;
    }
    proof {
        assert forall|k: Seq<u8>| in_range(k, opt_view(*start), opt_view(*end)) && (#[trigger] latest(entries@, k) matches Some(v)
            && v.2 == ValueType::Value) implies exists|a: int| 0 <= a < r@.len() && r@[a].0@ == k by {
            assert(entry_for(t.entries@, k) == latest(entries@, k));
            assert(holds_key(t.entries@, k));
            let j = choose|j: int| 0 <= j < t.entries@.len() && #[trigger] t.entries@[j].key@ == k;
            lemma_entry_for_at(t.entries@, j);
        }
    }
    r
}

/// Reconciles entries into one sorted run; with `drop_tombstones`, keys whose
/// winning version is a deletion are left out.
pub fn compact_entries(entries: &Vec<Entry>, drop_tombstones: bool) -> (r: Vec<Entry>)
    ensures
        keys_sorted(r@),
        forall|k: Seq<u8>| #[trigger] entry_for(r@, k) == (if drop_tombstones && (latest(entries@, k) matches Some(v) && v.2 == ValueType::Tombstone) {
            None
        } else {
            latest(entries@, k)
        }),
{
    let t = collect_latest(entries);
    let mut r: Vec<Entry> = Vec::new();
    let n = t.entries.len();
    let mut i: usize = 0;
    let ghost mut idx: Seq<int> = Seq::empty();
    while i < n
        invariant
            t.wf(),
            n == t.entries@.len(),
            forall|k: Seq<u8>| #[trigger] entry_for(t.entries@, k) == latest(entries@, k),
            i <= n,
            idx.len() == r@.len(),
            forall|a: int| 0 <= a < r@.len() ==> 0 <= #[trigger] idx[a] < i,
            forall|a: int, b: int| 0 <= a < b < r@.len() ==> idx[a] < idx[b],
            forall|a: int| 0 <= a < r@.len() ==> entry_view(#[trigger] r@[a]) == entry_view(t.entries@[idx[a]]),
            forall|a: int| 0 <= a < r@.len() ==> !(drop_tombstones && (#[trigger] r@[a]).value_type == ValueType::Tombstone),
            forall|j: int| 0 <= j < i && !(drop_tombstones && (#[trigger] t.entries@[j]).value_type == ValueType::Tombstone)
                ==> exists|a: int| 0 <= a < r@.len() && idx[a] == j,
        decreases n - i,
    {
        let e = &t.entries[i];
        if !(drop_tombstones && e.is_tombstone()) {
            let ghost old_r = r@;
            r.push(e.duplicate());
            let ghost old_idx = idx;
            proof {
                idx = idx.push(i as int);
                assert forall|j: int| 0 <= j < i + 1 && !(drop_tombstones && (#[trigger] t.entries@[j]).value_type == ValueType::Tombstone)
                    implies exists|a: int| 0 <= a < r@.len() && idx[a] == j by {
                    if j < i {
                        let a = choose|a: int| 0 <= a < old_r.len() && old_idx[a] == j;
                        assert(idx[a] == j);
                    } else {
                        assert(idx[r@.len() - 1] == j);
                    }
                }
            }
        }
        i = i + 1;
    }
    proof {
        assert forall|a: int, b: int| 0 <= a < b < r@.len() implies lex_lt(#[trigger] r@[a].key@, #[trigger] r@[b].key@) by {
            assert(lex_lt(t.entries@[idx[a]].key@, t.entries@[idx[b]].key@));
        }
        assert forall|k: Seq<u8>| #[trigger] entry_for(r@, k) == (if drop_tombstones && (latest(entries@, k) matches Some(v) && v.2 == ValueType::Tombstone) {
            None
        } else {
            latest(entries@, k)
        }) by {
            assert(entry_for(t.entries@, k) == latest(entries@, k));
            if holds_key(r@, k) {
                let a = choose|a: int| 0 <= a < r@.len() && #[trigger] r@[a].key@ == k;
                lemma_entry_for_at(r@, a);
                lemma_entry_for_at(t.entries@, idx[a]);
            } else if holds_key(t.entries@, k) {
                let j = choose|j: int| 0 <= j < t.entries@.len() && #[trigger] t.entries@[j].key@ == k;
                lemma_entry_for_at(t.entries@, j);
                if !(drop_tombstones && t.entries@[j].value_type == ValueType::Tombstone) {
                    let a = choose|a: int| 0 <= a < r@.len() && idx[a] == j;
                    assert(r@[a].key@ == k);
                }
            }
        }
    }
    r
}

} // verus!
