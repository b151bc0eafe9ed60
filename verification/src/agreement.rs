//! Scans and point reads agree: where newer layers of the store hold newer
//! versions of a key, the version a scan takes (the highest sequence number
//! among everything read) is the one a point read finds first.
use vstd::prelude::*;
use crate::merge::{latest_view, view_for, views_sorted, view_seq, lemma_view_for_at, lemma_entry_for_views};
use crate::sstable::block::{EntryView, entry_views};
use crate::sstable::reader::{table_contents, tables_entries, lookup_answer};
use crate::sstable::lookup::{table_answer, lemma_first_with_key_sorted};
use crate::memtable::MemTable;
use crate::engine::{EngineCore, imm_answer, imm_entries, tables_answer, value_of, lemma_tables_answer_shift,
    lookup_plan, all_files, newest_first, deeper_plan, covering};
use crate::manifest::version::FileView;
use crate::types::ValueType;

verus! {

/// Layers of versions, oldest first, one after another.
pub open spec fn flatten_views(ls: Seq<Seq<EntryView>>) -> Seq<EntryView>
    decreases ls.len(),
{
    if ls.len() == 0 {
        Seq::empty()
    } else {
        flatten_views(ls.drop_last()) + ls.last()
    }
}

/// Every layer is a sorted run.
pub open spec fn all_sorted(ls: Seq<Seq<EntryView>>) -> bool {
    forall|i: int| 0 <= i < ls.len() ==> views_sorted(#[trigger] ls[i])
}

/// Versions of `key` in a later layer carry higher sequence numbers than the
/// versions of it in every earlier layer.
pub open spec fn seq_layered(ls: Seq<Seq<EntryView>>, key: Seq<u8>) -> bool {
    forall|i: int, j: int, a: int, b: int|
        #![trigger ls[i][a], ls[j][b]]
        0 <= i < j < ls.len() && 0 <= a < ls[i].len() && 0 <= b < ls[j].len()
            && ls[i][a].0 == key && ls[j][b].0 == key ==> ls[i][a].3 < ls[j][b].3
}

/// The version of `key` in the newest layer that holds one.
pub open spec fn newest_version(ls: Seq<Seq<EntryView>>, key: Seq<u8>) -> Option<EntryView>
    decreases ls.len(),
{
    if ls.len() == 0 {
        None
    } else if view_for(ls.last(), key) is Some {
        view_for(ls.last(), key)
    } else {
        newest_version(ls.drop_last(), key)
    }
}

/// The winning version is one of the versions of the key.
pub proof fn lemma_latest_in(vs: Seq<EntryView>, key: Seq<u8>)
    ensures
        latest_view(vs, key) matches Some(x) ==> exists|i: int| 0 <= i < vs.len() && #[trigger] vs[i] == x && x.0 == key,
    decreases vs.len(),
{
    if vs.len() > 0 {
        lemma_latest_in(vs.drop_last(), key);
        let prev = latest_view(vs.drop_last(), key);
        let e = vs.last();
        if e.0 == key && (prev is None || e.3 > view_seq(prev->0)) {
            assert(vs[vs.len() - 1] == e);
        } else if prev is Some {
            let i = choose|i: int| 0 <= i < vs.drop_last().len() && #[trigger] vs.drop_last()[i] == prev->0 && (prev->0).0 == key;
            assert(vs[i] == vs.drop_last()[i]);
        }
    }
}

proof fn lemma_sorted_prefix(b: Seq<EntryView>)
    requires
        views_sorted(b),
        b.len() > 0,
    ensures
        views_sorted(b.drop_last()),
{
    assert forall|i: int, j: int| 0 <= i < j < b.drop_last().len() implies
        crate::keys::lex_lt(#[trigger] b.drop_last()[i].0, #[trigger] b.drop_last()[j].0) by {
        assert(b.drop_last()[i] == b[i] && b.drop_last()[j] == b[j]);
    }
}

/// The view for a key in a sorted run whose last key differs is the view for it
/// in the run without its last element.
proof fn lemma_view_for_drop_last(b: Seq<EntryView>, key: Seq<u8>)
    requires
        views_sorted(b),
        b.len() > 0,
        b.last().0 != key,
    ensures
        view_for(b, key) == view_for(b.drop_last(), key),
{
    lemma_sorted_prefix(b);
    let p = b.drop_last();
    if exists|i: int| 0 <= i < b.len() && #[trigger] b[i].0 == key {
        let i = choose|i: int| 0 <= i < b.len() && #[trigger] b[i].0 == key;
        assert(i < b.len() - 1);
        assert(p[i] == b[i]);
        lemma_view_for_at(b, i);
        lemma_view_for_at(p, i);
    } else {
        assert forall|i: int| 0 <= i < p.len() implies #[trigger] p[i].0 != key by {
            assert(p[i] == b[i]);
        }
    }
}

/// Before the last element of a sorted run no element holds the last key.
proof fn lemma_last_key_unique(b: Seq<EntryView>)
    requires
        views_sorted(b),
        b.len() > 0,
    ensures
        forall|i: int| 0 <= i < b.drop_last().len() ==> #[trigger] b.drop_last()[i].0 != b.last().0,
{
    assert forall|i: int| 0 <= i < b.drop_last().len() implies #[trigger] b.drop_last()[i].0 != b.last().0 by {
        assert(b.drop_last()[i] == b[i]);
        assert(crate::keys::lex_lt(b[i].0, b[b.len() - 1].0));
        crate::keys::lemma_lex_irrefl(b[i].0);
    }
}

/// Appending a sorted run whose version of the key (if any) is newer than every
/// version of it before: that version wins, or the winner before stays.
pub proof fn lemma_latest_concat(a: Seq<EntryView>, b: Seq<EntryView>, key: Seq<u8>)
    requires
        views_sorted(b),
        view_for(b, key) matches Some(v) ==> forall|i: int| 0 <= i < a.len() && (#[trigger] a[i]).0 == key ==> a[i].3 < v.3,
    ensures
        latest_view(a + b, key) == (if view_for(b, key) is Some { view_for(b, key) } else { latest_view(a, key) }),
    decreases b.len(),
{
    if b.len() == 0 {
        assert(a + b =~= a);
    } else {
        let p = b.drop_last();
        let e = b.last();
        lemma_sorted_prefix(b);
        assert((a + b).drop_last() =~= a + p);
        assert((a + b).last() == e);
        if e.0 == key {
            lemma_view_for_at(b, b.len() - 1);
            assert(b[b.len() - 1] == e);
            lemma_last_key_unique(b);
            assert(view_for(p, key) is None) by {
                if exists|i: int| 0 <= i < p.len() && #[trigger] p[i].0 == key {
                    let i = choose|i: int| 0 <= i < p.len() && #[trigger] p[i].0 == key;
                    assert(p[i].0 != e.0);
                }
            }
            lemma_latest_concat(a, p, key);
            lemma_latest_in(a, key);
        } else {
            lemma_view_for_drop_last(b, key);
            lemma_latest_concat(a, p, key);
        }
    }
}

/// Each element of the layers laid end to end comes from some layer.
pub proof fn lemma_flatten_member(ls: Seq<Seq<EntryView>>, idx: int)
    requires
        0 <= idx < flatten_views(ls).len(),
    ensures
        exists|i: int, a: int| 0 <= i < ls.len() && 0 <= a < ls[i].len() && #[trigger] ls[i][a] == flatten_views(ls)[idx],
    decreases ls.len(),
{
    let p = ls.drop_last();
    let f = flatten_views(p);
    assert(flatten_views(ls) == f + ls.last());
    if idx < f.len() {
        lemma_flatten_member(p, idx);
        let (i, a) = choose|i: int, a: int| 0 <= i < p.len() && 0 <= a < p[i].len() && #[trigger] p[i][a] == f[idx];
        assert(ls[i] == p[i]);
        assert(ls[i][a] == flatten_views(ls)[idx]);
    } else {
        let a = idx - f.len();
        assert(ls[ls.len() - 1][a] == flatten_views(ls)[idx]);
    }
}

/// Over sorted layers whose newer versions of the key carry higher sequence
/// numbers, the winning version of everything read, oldest layer first, is the
/// version in the newest layer holding the key.
pub proof fn lemma_latest_layers(ls: Seq<Seq<EntryView>>, key: Seq<u8>)
    requires
        all_sorted(ls),
        seq_layered(ls, key),
    ensures
        latest_view(flatten_views(ls), key) == newest_version(ls, key),
    decreases ls.len(),
{
    if ls.len() > 0 {
        let p = ls.drop_last();
        let last = ls.last();
        assert(all_sorted(p)) by {
            assert forall|i: int| 0 <= i < p.len() implies views_sorted(#[trigger] p[i]) by {
                assert(p[i] == ls[i]);
            }
        }
        assert(seq_layered(p, key)) by {
            assert forall|i: int, j: int, a: int, b: int|
                #![trigger p[i][a], p[j][b]]
                0 <= i < j < p.len() && 0 <= a < p[i].len() && 0 <= b < p[j].len()
                    && p[i][a].0 == key && p[j][b].0 == key implies p[i][a].3 < p[j][b].3 by {
                assert(p[i] == ls[i] && p[j] == ls[j]);
                assert(ls[i][a] == p[i][a] && ls[j][b] == p[j][b]);
            }
        }
        lemma_latest_layers(p, key);
        assert(views_sorted(ls[ls.len() - 1]));
        let f = flatten_views(p);
        if view_for(last, key) is Some {
            let v = view_for(last, key)->0;
            let b = choose|b: int| 0 <= b < last.len() && #[trigger] last[b].0 == key;
            lemma_view_for_at(last, b);
            assert forall|x: int| 0 <= x < f.len() && (#[trigger] f[x]).0 == key implies f[x].3 < v.3 by {
                lemma_flatten_member(p, x);
                let (i, a) = choose|i: int, a: int| 0 <= i < p.len() && 0 <= a < p[i].len() && #[trigger] p[i][a] == f[x];
                assert(p[i] == ls[i]);
                assert(ls[i][a] == f[x]);
                assert(ls[ls.len() - 1][b] == v);
            }
        }
        lemma_latest_concat(f, last, key);
    }
}

/// The versions each table image holds, in the order given.
pub open spec fn table_layers(imgs: Seq<Seq<u8>>) -> Seq<Seq<EntryView>> {
    imgs.map_values(|t: Seq<u8>| table_contents(t)->0)
}

/// The versions each frozen table holds, oldest first.
pub open spec fn imm_layers(imms: Seq<MemTable>) -> Seq<Seq<EntryView>> {
    imms.map_values(|m: MemTable| entry_views(m.table.entries@))
}

/// Everything a store holds, as layers from the oldest: the table images in
/// the order given, the frozen tables from the oldest, then the active table.
pub open spec fn read_layers(c: EngineCore, imgs: Seq<Seq<u8>>) -> Seq<Seq<EntryView>> {
    table_layers(imgs) + imm_layers(c.imm_memtables@).push(entry_views(c.memtable.table.entries@))
}

/// What a read answers from a winning version: its value, or nothing for a
/// deletion or when there is none.
pub open spec fn version_value(w: Option<EntryView>) -> Option<Seq<u8>> {
    match w {
        Some(x) => if x.2 == ValueType::Value { Some(x.1) } else { None },
        None => None,
    }
}

proof fn lemma_flatten_append(x: Seq<Seq<EntryView>>, y: Seq<Seq<EntryView>>)
    ensures
        flatten_views(x + y) == flatten_views(x) + flatten_views(y),
    decreases y.len(),
{
    if y.len() == 0 {
        assert(x + y =~= x);
        assert(flatten_views(x) + flatten_views(y) =~= flatten_views(x));
    } else {
        lemma_flatten_append(x, y.drop_last());
        assert((x + y).drop_last() =~= x + y.drop_last());
        assert((x + y).last() == y.last());
    }
}

proof fn lemma_flatten_tables(imgs: Seq<Seq<u8>>)
    ensures
        flatten_views(table_layers(imgs)) == tables_entries(imgs),
    decreases imgs.len(),
{
    if imgs.len() > 0 {
        lemma_flatten_tables(imgs.drop_last());
        assert(table_layers(imgs).drop_last() =~= table_layers(imgs.drop_last()));
    }
}

proof fn lemma_flatten_imms(imms: Seq<MemTable>)
    ensures
        flatten_views(imm_layers(imms)) == imm_entries(imms),
    decreases imms.len(),
{
    if imms.len() > 0 {
        lemma_flatten_imms(imms.drop_last());
        assert(imm_layers(imms).drop_last() =~= imm_layers(imms.drop_last()));
    }
}

proof fn lemma_newest_append(x: Seq<Seq<EntryView>>, y: Seq<Seq<EntryView>>, key: Seq<u8>)
    ensures
        newest_version(x + y, key) == (if newest_version(y, key) is Some { newest_version(y, key) } else { newest_version(x, key) }),
    decreases y.len(),
{
    if y.len() == 0 {
        assert(x + y =~= x);
    } else {
        lemma_newest_append(x, y.drop_last(), key);
        assert((x + y).drop_last() =~= x + y.drop_last());
        assert((x + y).last() == y.last());
    }
}

/// A table in memory answers from the version its sorted entries hold.
proof fn lemma_memtable_answer(m: MemTable, key: Seq<u8>)
    requires
        m.wf(),
    ensures
        m.answer(key) == lookup_answer(view_for(entry_views(m.table.entries@), key)),
        views_sorted(entry_views(m.table.entries@)),
{
    lemma_entry_for_views(m.table.entries@);
}

proof fn lemma_imm_answer(imms: Seq<MemTable>, key: Seq<u8>)
    requires
        forall|i: int| 0 <= i < imms.len() ==> (#[trigger] imms[i]).wf(),
    ensures
        imm_answer(imms, key) == lookup_answer(newest_version(imm_layers(imms), key)),
    decreases imms.len(),
{
    if imms.len() > 0 {
        assert(imms[imms.len() - 1].wf());
        lemma_memtable_answer(imms.last(), key);
        assert(imm_layers(imms).drop_last() =~= imm_layers(imms.drop_last()));
        assert(imm_layers(imms).last() == entry_views(imms.last().table.entries@));
        assert forall|i: int| 0 <= i < imms.drop_last().len() implies (#[trigger] imms.drop_last()[i]).wf() by {
            assert(imms.drop_last()[i] == imms[i]);
        }
        lemma_imm_answer(imms.drop_last(), key);
    }
}

proof fn lemma_tables_newest(imgs: Seq<Seq<u8>>, key: Seq<u8>)
    requires
        forall|i: int| 0 <= i < imgs.len() ==> views_sorted(#[trigger] table_contents(imgs[i])->0),
    ensures
        tables_answer(imgs.reverse(), key, 0) == lookup_answer(newest_version(table_layers(imgs), key)),
    decreases imgs.len(),
{
    if imgs.len() > 0 {
        let p = imgs.drop_last();
        let last = imgs.last();
        assert(imgs.reverse() =~= seq![last] + p.reverse());
        assert forall|i: int| 0 <= i < p.len() implies views_sorted(#[trigger] table_contents(p[i])->0) by {
            assert(p[i] == imgs[i]);
        }
        lemma_tables_newest(p, key);
        assert(views_sorted(table_contents(imgs[imgs.len() - 1])->0));
        lemma_first_with_key_sorted(table_contents(last)->0, key);
        assert(table_answer(last, key) == lookup_answer(view_for(table_contents(last)->0, key)));
        assert(table_layers(imgs).drop_last() =~= table_layers(p));
        assert(table_layers(imgs).last() == table_contents(last)->0);
        assert((seq![last] + p.reverse())[0] == last);
        lemma_tables_answer_shift(last, p.reverse(), key, 0);
    }
}

/// A scan and a point read agree. Take the table images in the order a scan
/// reads them, oldest first, a point read taking them newest first; let every
/// image hold a sorted run, and let newer layers (the images, then the frozen
/// tables, then the active table) hold newer versions of the key. Then the
/// version a scan keeps for the key, the one with the highest sequence number
/// among everything read, is the one a point read finds first: a scan lists
/// the key with a value exactly when a read of it gives that value.
pub proof fn law_scan_agrees_with_get(c: EngineCore, imgs: Seq<Seq<u8>>, key: Seq<u8>)
    requires
        c.wf(),
        forall|i: int| 0 <= i < imgs.len() ==> views_sorted(#[trigger] table_contents(imgs[i])->0),
        seq_layered(read_layers(c, imgs), key),
    ensures
        c.read_answer(imgs.reverse(), key) == version_value(latest_view(tables_entries(imgs) + c.memory_entries(), key)),
{
    let tl = table_layers(imgs);
    let il = imm_layers(c.imm_memtables@);
    let act = entry_views(c.memtable.table.entries@);
    let ml = il.push(act);
    let ls = read_layers(c, imgs);
    assert(ls == tl + ml);
    lemma_memtable_answer(c.memtable, key);
    assert(all_sorted(ls)) by {
        assert forall|i: int| 0 <= i < ls.len() implies views_sorted(#[trigger] ls[i]) by {
            if i < tl.len() {
                assert(ls[i] == table_contents(imgs[i])->0);
            } else if i < tl.len() + il.len() {
                let j = i - tl.len();
                assert(c.imm_memtables@[j].wf());
                lemma_memtable_answer(c.imm_memtables@[j], key);
                assert(ls[i] == entry_views(c.imm_memtables@[j].table.entries@));
            } else {
                assert(ls[i] == act);
            }
        }
    }
    lemma_latest_layers(ls, key);
    lemma_flatten_append(tl, ml);
    lemma_flatten_tables(imgs);
    assert(ml.drop_last() =~= il);
    assert(flatten_views(ml) == flatten_views(il) + act);
    lemma_flatten_imms(c.imm_memtables@);
    assert(flatten_views(ls) =~= tables_entries(imgs) + c.memory_entries());
    lemma_newest_append(tl, ml, key);
    lemma_imm_answer(c.imm_memtables@, key);
    lemma_tables_newest(imgs, key);
}

proof fn lemma_newest_first_reverse(fs: Seq<FileView>)
    ensures
        newest_first(fs) == fs.map_values(|f: FileView| f.0).reverse(),
    decreases fs.len(),
{
    if fs.len() > 0 {
        lemma_newest_first_reverse(fs.drop_last());
        assert(fs.drop_last().map_values(|f: FileView| f.0) =~= fs.map_values(|f: FileView| f.0).drop_last());
        assert(newest_first(fs) =~= fs.map_values(|f: FileView| f.0).reverse());
    } else {
        assert(fs.map_values(|f: FileView| f.0).reverse() =~= Seq::<u64>::empty());
    }
}

proof fn lemma_deeper_empty(levels: Seq<Seq<FileView>>, key: Seq<u8>, n: int)
    requires
        n <= levels.len(),
        forall|l: int| 1 <= l < levels.len() ==> (#[trigger] levels[l]).len() == 0,
    ensures
        deeper_plan(levels, key, n) == Seq::<u64>::empty(),
    decreases n,
{
    if n > 1 {
        lemma_deeper_empty(levels, key, n - 1);
        assert(levels[n - 1].len() == 0);
        assert(covering(levels[n - 1], key) =~= Seq::<u64>::empty());
        assert(deeper_plan(levels, key, n) =~= Seq::<u64>::empty());
    }
}

proof fn lemma_all_files_level0(levels: Seq<Seq<FileView>>)
    requires
        levels.len() > 0,
        forall|l: int| 1 <= l < levels.len() ==> (#[trigger] levels[l]).len() == 0,
    ensures
        all_files(levels) == levels[0].map_values(|f: FileView| f.0),
    decreases levels.len(),
{
    let p = levels.drop_last();
    if levels.len() == 1 {
        assert(all_files(p) =~= Seq::<u64>::empty());
        assert(levels.last() == levels[0]);
        assert(all_files(levels) =~= levels[0].map_values(|f: FileView| f.0));
    } else {
        assert forall|l: int| 1 <= l < p.len() implies (#[trigger] p[l]).len() == 0 by {
            assert(p[l] == levels[l]);
        }
        lemma_all_files_level0(p);
        assert(levels[levels.len() - 1].len() == 0);
        assert(levels.last().map_values(|f: FileView| f.0) =~= Seq::<u64>::empty());
        assert(p[0] == levels[0]);
        assert(all_files(levels) =~= levels[0].map_values(|f: FileView| f.0));
    }
}

/// While only level 0 holds files, a point read consults every file, the
/// newest first, and a scan reads the same files the other way round.
pub proof fn law_plans_mirror(levels: Seq<Seq<FileView>>, key: Seq<u8>)
    requires
        forall|l: int| 1 <= l < levels.len() ==> (#[trigger] levels[l]).len() == 0,
    ensures
        lookup_plan(levels, key) == all_files(levels).reverse(),
{
    if levels.len() == 0 {
        assert(all_files(levels).reverse() =~= Seq::<u64>::empty());
    } else {
        lemma_newest_first_reverse(levels[0]);
        lemma_deeper_empty(levels, key, levels.len() as int);
        lemma_all_files_level0(levels);
        assert(lookup_plan(levels, key) =~= all_files(levels).reverse());
    }
}

} // verus!
