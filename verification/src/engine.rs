//! The store's state and the decisions taken on it. The caller performs the file
//! work (log appends, table and manifest files) that these steps ask for, and
//! hands the bytes it reads back in.
use vstd::prelude::*;
use crate::config::Options;
use crate::error::FlashStoreError;
use crate::keys::{lex_lt, key_lt};
use crate::memtable::MemTable;
use crate::manifest::{VersionSet, apply_edit, apply_deletes, apply_adds, decode_edits, manifest_parse};
use crate::manifest::version::{FileView, EditView, VersionEdit, FileMetaData, file_view};
use crate::sstable::builder::{TableBuilder, filter_fits, filter_fits_for, build_run, table_fits};
use crate::compaction::{Compactor, CompactionTask, CompactionOutput, survivors, picked_level, overlapping, min_smallest, max_largest,
    level_size, removals};
use crate::merge::{views_sorted, view_for, compacted_for};
use crate::sstable::lookup::{table_sound, table_answer, lemma_sound_filter, lemma_sound_split};
use crate::sstable::reader::{split_point, block_for, tbl_index, tbl_filter};
use crate::sstable::bloom::filter_admits;
use crate::sstable::block::block_len;
use crate::types::sizes_sum;
use crate::wal::record::{WalRecord, RecordView};
use crate::wal::log::{decode_log, log_records, frames_len, record_views, frames_records, concat_bytes, concat_records};
use crate::batch::{BatchOp, WriteBatch, op_view};
use crate::sstable::reader::{answer_view, table_wf, table_contents, table_opens, TableReader, lemma_reader_matches_image, tables_entries, images};
use crate::sstable::block::{EntryView, entry_view, entry_views};
use crate::types::{Entry, ValueType};
use crate::merge::{merge_scan, latest, latest_view, lemma_latest_views, in_range, opt_view, pairs_sorted};

verus! {

/// Sizes reported by a store: the active table, the tables waiting to be
/// written, and the number of table files on each level.
pub struct Stats {
    pub active_memtable_size: usize,
    pub immutable_memtables_count: usize,
    pub levels_file_count: Vec<usize>,
}

/// The in-memory state of a store.
pub struct EngineCore {
    pub options: Options,
    pub memtable: MemTable,
    pub imm_memtables: Vec<MemTable>,
    pub version_set: VersionSet,
    pub memtable_id_seq: usize,
}

/// What the frozen tables answer for `key`, the most recently frozen first.
pub open spec fn imm_answer(imms: Seq<MemTable>, key: Seq<u8>) -> Option<Option<Seq<u8>>>
    decreases imms.len(),
{
    if imms.len() == 0 {
        None
    } else if imms.last().answer(key) is Some {
        imms.last().answer(key)
    } else {
        imm_answer(imms.drop_last(), key)
    }
}

/// What the last of `recs` that touches `key` says of it: its value, a
/// deletion, or nothing when no record touches the key.
pub open spec fn replay_answer(recs: Seq<RecordView>, key: Seq<u8>) -> Option<Option<Seq<u8>>>
    decreases recs.len(),
{
    if recs.len() == 0 {
        None
    } else if recs.last().0 == key {
        if recs.last().2 { Some(None) } else { Some(Some(recs.last().1)) }
    } else {
        replay_answer(recs.drop_last(), key)
    }
}

/// The records of `recs` newer than sequence number `floor`, in order.
pub open spec fn newer_than(recs: Seq<RecordView>, floor: u64) -> Seq<RecordView>
    decreases recs.len(),
{
    if recs.len() == 0 {
        Seq::empty()
    } else if recs.last().3 > floor {
        newer_than(recs.drop_last(), floor).push(recs.last())
    } else {
        newer_than(recs.drop_last(), floor)
    }
}

/// The answer for `key` once `recs` are applied over a table answering `prev`.
pub open spec fn answer_after(prev: Option<Option<Seq<u8>>>, recs: Seq<RecordView>, key: Seq<u8>) -> Option<Option<Seq<u8>>> {
    if replay_answer(recs, key) is Some { replay_answer(recs, key) } else { prev }
}

/// Bytes the entries of `recs` are charged in a table: key, value and 9 bytes each.
pub open spec fn records_size(recs: Seq<WalRecord>) -> int
    decreases recs.len(),
{
    if recs.len() == 0 {
        0
    } else {
        records_size(recs.drop_last()) + recs.last().key@.len() + recs.last().value@.len() + 9
    }
}

/// The largest sequence number among `init` and those of `recs`.
pub open spec fn max_seq(init: u64, recs: Seq<RecordView>) -> u64
    decreases recs.len(),
{
    if recs.len() == 0 {
        init
    } else {
        let m = max_seq(init, recs.drop_last());
        if recs.last().3 > m { recs.last().3 } else { m }
    }
}

/// Levels and counters after replaying `edits` in order.
pub open spec fn replay_edits(levels: Seq<Seq<FileView>>, next_file: u64, last_seq: u64, edits: Seq<EditView>)
    -> (Seq<Seq<FileView>>, u64, u64)
    decreases edits.len(),
{
    if edits.len() == 0 {
        (levels, next_file, last_seq)
    } else {
        let p = replay_edits(levels, next_file, last_seq, edits.drop_last());
        let e = edits.last();
        (apply_edit(p.0, e),
            match e.0 { Some(n) => n, None => p.1 },
            match e.1 { Some(n) => n, None => p.2 })
    }
}

/// Records of a batch whose sequence numbers follow `last`.
pub open spec fn batch_records(ops: Seq<(Seq<u8>, Option<Seq<u8>>)>, last: u64) -> Seq<RecordView> {
    Seq::new(ops.len(), |i: int| match ops[i].1 {
        Some(v) => (ops[i].0, v, false, (last + i + 1) as u64),
        None => (ops[i].0, Seq::<u8>::empty(), true, (last + i + 1) as u64),
    })
}

/// `levels` of empty file lists.
pub open spec fn empty_levels(n: nat) -> Seq<Seq<FileView>> {
    Seq::new(n, |i: int| Seq::<FileView>::empty())
}

impl EngineCore {
    pub open spec fn wf(self) -> bool {
        &&& self.memtable.wf()
        &&& forall|i: int| 0 <= i < self.imm_memtables@.len() ==> (#[trigger] self.imm_memtables@[i]).wf()
    }

    /// What the tables in memory answer for `key`: the active one first, then
    /// the frozen ones from the most recent.
    pub open spec fn memory_answer(self, key: Seq<u8>) -> Option<Option<Seq<u8>>> {
        if self.memtable.answer(key) is Some {
            self.memtable.answer(key)
        } else {
            imm_answer(self.imm_memtables@, key)
        }
    }

    /// Rebuilds the state from a manifest image and a log image: the edits of the
    /// manifest are applied in order to empty levels, then the log's records
    /// newer than the manifest's last sequence number are applied to a fresh
    /// table (reading stops at the first torn or damaged frame), and the last
    /// sequence number becomes the largest one seen. A manifest record that
    /// cannot be read is an error.
    pub fn recover(options: Options, manifest: &[u8], wal: &[u8]) -> (r: Result<EngineCore, FlashStoreError>)
        ensures
            r is Ok <==> manifest_parse(manifest@) is Some,
            r matches Err(e) ==> e is Other,
            r matches Ok(c) ==> {
                let p = replay_edits(empty_levels(options.max_levels as nat), 1, 0, manifest_parse(manifest@)->0);
                &&& c.wf()
                &&& c.options == options
                &&& c.version_set.current.view() == p.0
                &&& c.version_set.next_file_number == p.1
                &&& c.version_set.last_sequence == max_seq(p.2, log_records(wal@))
                &&& c.version_set.max_levels == options.max_levels
                &&& c.imm_memtables@.len() == 0
                &&& c.memtable.id == 0
                &&& c.memtable_id_seq == 1
                &&& forall|k: Seq<u8>| #[trigger] c.memtable.answer(k) == replay_answer(newer_than(log_records(wal@), p.2), k)
            },
    {
        let edits = match decode_edits(manifest) {
            Ok(es) => es,
            Err(e) => return Err(e),
        };
        let ghost evs = edits@.map_values(|e: VersionEdit| e.view());
        let mut version_set = VersionSet::new(options.max_levels);
        proof {
            assert forall|i: int| 0 <= i < options.max_levels implies #[trigger] version_set.current.view()[i] =~= empty_levels(options.max_levels as nat)[i] by {
                assert(version_set.current.view()[i].len() == 0);
            }
            assert(version_set.current.view() =~= empty_levels(options.max_levels as nat));
        }
        assert(evs == manifest_parse(manifest@)->0);
        let mut edits = edits;
        let ghost total = edits@.len();
        let ghost base = empty_levels(options.max_levels as nat);
        proof { assert(evs.take(0) =~= Seq::<EditView>::empty()); }
        while edits.len() > 0
            invariant
                total == evs.len(),
                edits@.len() <= total,
                edits@.map_values(|e: VersionEdit| e.view()) == evs.skip(total - edits@.len()),
                ({
                    let p = replay_edits(base, 1, 0, evs.take(total - edits@.len()));
                    &&& version_set.current.view() == p.0
                    &&& version_set.next_file_number == p.1
                    &&& version_set.last_sequence == p.2
                }),
                version_set.max_levels == options.max_levels,
            decreases edits@.len(),
        {
            let ghost done = (total - edits@.len()) as int;
            let ghost before = edits@;
            let e = edits.remove(0);
            proof {
                assert(before.map_values(|e: VersionEdit| e.view())[0] == e.view());
                assert(evs.skip(done)[0] == evs[done]);
                assert(evs.take(done + 1).drop_last() =~= evs.take(done));
                assert(evs.take(done + 1).last() == evs[done]);
                let cur = edits@.map_values(|e: VersionEdit| e.view());
                let prv = before.map_values(|e: VersionEdit| e.view());
                let want = evs.skip(done + 1);
                assert forall|i: int| 0 <= i < cur.len() implies #[trigger] cur[i] == want[i] by {
                    assert(edits@[i] == before[i + 1]);
                    assert(prv[i + 1] == evs.skip(done)[i + 1]);
                }
                assert(cur =~= want);
            }
            version_set.log_and_apply(e);
        }
        proof { assert(evs.take(total as int) =~= evs); }
        let wal_len = wal.len();
        let records = decode_log(wal);
        let ghost rvs = record_views(records@);
        let mut memtable = MemTable::new(0);
        let ls = version_set.last_sequence();
        let mut max_s = ls;
        let ghost ls0 = ls;
        let mut j: usize = 0;
        while j < records.len()
            invariant
                j <= records@.len(),
                rvs == record_views(records@),
                frames_len(records@) <= wal_len,
                memtable.wf(),
                memtable.id == 0,
                memtable.size_bytes <= records_size(records@.take(j as int)),
                ls == ls0,
                max_s == max_seq(ls0, rvs.take(j as int)),
                forall|k: Seq<u8>| #[trigger] memtable.answer(k) == replay_answer(newer_than(rvs.take(j as int), ls0), k),
            decreases records@.len() - j,
        {
            let rec = &records[j];
            proof {
                lemma_records_size_prefix(records@, j as int + 1);
                lemma_records_size_le_frames(records@);
                assert(records@.take(j + 1).drop_last() =~= records@.take(j as int));
                assert(records@.take(j + 1).last() == records@[j as int]);
                assert(rvs.take(j + 1).drop_last() =~= rvs.take(j as int));
                assert(rvs.take(j + 1).last() == rec.view_tuple());
            }
            if rec.seq_no > max_s {
                max_s = rec.seq_no;
            }
            let ghost prev = memtable;
            if rec.seq_no > ls {
                if rec.is_delete {
                    memtable.delete(rec.key.clone(), rec.seq_no);
                } else {
                    memtable.put(rec.key.clone(), rec.value.clone(), rec.seq_no);
                }
                proof {
                    let nt = newer_than(rvs.take(j as int), ls0);
                    assert(newer_than(rvs.take(j + 1), ls0) == nt.push(rec.view_tuple()));
                    assert(nt.push(rec.view_tuple()).drop_last() =~= nt);
                    assert(nt.push(rec.view_tuple()).last() == rec.view_tuple());
                    assert forall|k: Seq<u8>| #[trigger] memtable.answer(k)
                        == replay_answer(newer_than(rvs.take(j + 1), ls0), k) by {
                        if k != rec.key@ {
                            assert(memtable.answer(k) == prev.answer(k));
                        }
                    }
                }
            } else {
                assert(newer_than(rvs.take(j + 1), ls0) == newer_than(rvs.take(j as int), ls0));
            }
            j = j + 1;
        }
        proof { assert(rvs.take(records@.len() as int) =~= rvs); }
        version_set.set_last_sequence(max_s);
        Ok(EngineCore { options, memtable, imm_memtables: Vec::new(), version_set, memtable_id_seq: 1 })
    }
}

impl EngineCore {
    /// The state is unchanged but for the last sequence number.
    pub open spec fn same_but_sequence(self, other: EngineCore) -> bool {
        &&& self.options == other.options
        &&& self.memtable == other.memtable
        &&& self.imm_memtables == other.imm_memtables
        &&& self.version_set.current == other.version_set.current
        &&& self.version_set.next_file_number == other.version_set.next_file_number
        &&& self.version_set.max_levels == other.version_set.max_levels
        &&& self.memtable_id_seq == other.memtable_id_seq
    }

    pub fn last_sequence(&self) -> (r: u64)
        ensures
            r == self.version_set.last_sequence,
    {
        self.version_set.last_sequence()
    }

    /// Assigns the next sequence number to a put and returns the record to log.
    pub fn prepare_put(&mut self, key: Vec<u8>, value: Vec<u8>) -> (r: WalRecord)
        requires
            old(self).version_set.last_sequence < u64::MAX,
        ensures
            r.view_tuple() == (key@, value@, false, (old(self).version_set.last_sequence + 1) as u64),
            final(self).version_set.last_sequence == old(self).version_set.last_sequence + 1,
            final(self).same_but_sequence(*old(self)),
    {
        let seq = self.version_set.next_sequence();
        WalRecord { key, value, is_delete: false, seq_no: seq }
    }

    /// Assigns the next sequence number to a delete and returns the record to log.
    pub fn prepare_delete(&mut self, key: Vec<u8>) -> (r: WalRecord)
        requires
            old(self).version_set.last_sequence < u64::MAX,
        ensures
            r.view_tuple() == (key@, Seq::<u8>::empty(), true, (old(self).version_set.last_sequence + 1) as u64),
            final(self).version_set.last_sequence == old(self).version_set.last_sequence + 1,
            final(self).same_but_sequence(*old(self)),
    {
        let seq = self.version_set.next_sequence();
        WalRecord { key, value: Vec::new(), is_delete: true, seq_no: seq }
    }

    /// Assigns consecutive sequence numbers to the operations of a batch, in
    /// order, and returns the records to log together.
    pub fn prepare_batch(&mut self, batch: &WriteBatch) -> (r: Vec<WalRecord>)
        requires
            old(self).version_set.last_sequence + batch.ops@.len() <= u64::MAX,
        ensures
            record_views(r@) == batch_records(batch.spec_ops(), old(self).version_set.last_sequence),
            final(self).version_set.last_sequence == old(self).version_set.last_sequence + batch.ops@.len(),
            final(self).same_but_sequence(*old(self)),
    {
        let ghost last = self.version_set.last_sequence;
        let ghost ops = batch.spec_ops();
        let mut records: Vec<WalRecord> = Vec::new();
        let mut i: usize = 0;
        while i < batch.ops.len()
            invariant
                i <= batch.ops@.len(),
                ops == batch.spec_ops(),
                last + batch.ops@.len() <= u64::MAX,
                self.version_set.last_sequence == last + i,
                self.same_but_sequence(*old(self)),
                last == old(self).version_set.last_sequence,
                record_views(records@) == batch_records(ops, last).take(i as int),
            decreases batch.ops@.len() - i,
        {
            let seq = self.version_set.next_sequence();
            let rec = match &batch.ops[i] {
                BatchOp::Put(k, v) => WalRecord { key: k.clone(), value: v.clone(), is_delete: false, seq_no: seq },
                BatchOp::Delete(k) => WalRecord { key: k.clone(), value: Vec::new(), is_delete: true, seq_no: seq },
            };
            let ghost before = records@;
            records.push(rec);
            proof {
                assert(ops[i as int] == op_view(batch.ops@[i as int]));
                assert(rec.view_tuple() == batch_records(ops, last)[i as int]);
                assert(record_views(records@) =~= record_views(before).push(rec.view_tuple()));
                assert(batch_records(ops, last).take(i + 1) =~= batch_records(ops, last).take(i as int).push(batch_records(ops, last)[i as int]));
            }
            i = i + 1;
        }
        assert(batch_records(ops, last).take(i as int) =~= batch_records(ops, last));
        records
    }

    /// Applies logged records to the active table, in order.
    pub fn apply_records(&mut self, records: &Vec<WalRecord>)
        requires
            old(self).wf(),
            old(self).memtable.size_bytes + records_size(records@) <= usize::MAX,
        ensures
            final(self).wf(),
            forall|k: Seq<u8>| #[trigger] final(self).memtable.answer(k)
                == answer_after(old(self).memtable.answer(k), record_views(records@), k),
            final(self).memtable.id == old(self).memtable.id,
            final(self).memtable.size_bytes <= old(self).memtable.size_bytes + records_size(records@),
            final(self).options == old(self).options,
            final(self).imm_memtables == old(self).imm_memtables,
            final(self).version_set == old(self).version_set,
            final(self).memtable_id_seq == old(self).memtable_id_seq,
    {
        let ghost rvs = record_views(records@);
        let ghost m0 = self.memtable;
        let mut j: usize = 0;
        while j < records.len()
            invariant
                j <= records@.len(),
                rvs == record_views(records@),
                m0 == old(self).memtable,
                self.wf(),
                self.memtable.id == m0.id,
                m0.size_bytes + records_size(records@) <= usize::MAX,
                self.memtable.size_bytes <= m0.size_bytes + records_size(records@.take(j as int)),
                forall|k: Seq<u8>| #[trigger] self.memtable.answer(k) == answer_after(m0.answer(k), rvs.take(j as int), k),
                self.options == old(self).options,
                self.imm_memtables == old(self).imm_memtables,
                self.version_set == old(self).version_set,
                self.memtable_id_seq == old(self).memtable_id_seq,
            decreases records@.len() - j,
        {
            let rec = &records[j];
            proof {
                lemma_records_size_prefix(records@, j as int + 1);
                assert(records@.take(j + 1).drop_last() =~= records@.take(j as int));
                assert(records@.take(j + 1).last() == records@[j as int]);
                assert(rvs.take(j + 1).drop_last() =~= rvs.take(j as int));
                assert(rvs.take(j + 1).last() == rec.view_tuple());
            }
            let ghost prev = self.memtable;
            if rec.is_delete {
                self.memtable.delete(rec.key.clone(), rec.seq_no);
            } else {
                self.memtable.put(rec.key.clone(), rec.value.clone(), rec.seq_no);
            }
            proof {
                assert forall|k: Seq<u8>| #[trigger] self.memtable.answer(k) == answer_after(m0.answer(k), rvs.take(j + 1), k) by {
                    if k != rec.key@ {
                        assert(self.memtable.answer(k) == prev.answer(k));
                    }
                }
            }
            j = j + 1;
        }
        proof {
            assert(rvs.take(records@.len() as int) =~= rvs);
            assert(records@.take(records@.len() as int) =~= records@);
        }
    }

    /// Whether applying `records` keeps the byte count of the active table
    /// within `usize`.
    pub fn records_fit(&self, records: &Vec<WalRecord>) -> (r: bool)
        ensures
            r == (self.memtable.size_bytes + records_size(records@) <= usize::MAX),
    {
        let mut total: u128 = self.memtable.size_bytes as u128;
        let mut j: usize = 0;
        assert(records@.take(0) =~= Seq::<WalRecord>::empty());
        while j < records.len()
            invariant
                j <= records@.len(),
                total == self.memtable.size_bytes + records_size(records@.take(j as int)),
                total <= usize::MAX,
            decreases records@.len() - j,
        {
            assert(records@.take(j + 1).drop_last() =~= records@.take(j as int));
            let r = &records[j];
            total = total + r.key.len() as u128 + r.value.len() as u128 + 9;
            if total > usize::MAX as u128 {
                proof {
                    lemma_records_size_prefix(records@, j + 1);
                }
                return false;
            }
            j = j + 1;
        }
        assert(records@.take(j as int) =~= records@);
        true
    }

    /// Whether the active table has reached the size at which it is written out.
    pub fn should_flush(&self) -> (r: bool)
        ensures
            r == (self.memtable.size_bytes >= self.options.memtable_size),
    {
        self.memtable.approximate_size() >= self.options.memtable_size
    }

    /// Looks `key` up in the tables held in memory.
    pub fn get_from_memory(&self, key: &[u8]) -> (r: Option<Option<Vec<u8>>>)
        requires
            self.wf(),
        ensures
            answer_view(r) == self.memory_answer(key@),
    {
        let a = self.memtable.get(key);
        if a.is_some() {
            return a;
        }
        let mut i = self.imm_memtables.len();
        assert(self.imm_memtables@.take(i as int) =~= self.imm_memtables@);
        while i > 0
            invariant
                self.wf(),
                i <= self.imm_memtables@.len(),
                self.memtable.answer(key@) is None,
                imm_answer(self.imm_memtables@, key@) == imm_answer(self.imm_memtables@.take(i as int), key@),
            decreases i,
        {
            let ghost pre = self.imm_memtables@.take(i as int);
            assert(pre.last() == self.imm_memtables@[i - 1]);
            assert(pre.drop_last() =~= self.imm_memtables@.take(i - 1));
            let b = self.imm_memtables[i - 1].get(key);
            if b.is_some() {
                return b;
            }
            i = i - 1;
        }
        None
    }

    /// Sizes of the active table, the number of frozen tables, and the file
    /// count of every level.
    pub fn stats(&self) -> (s: Stats)
        ensures
            s.active_memtable_size == self.memtable.size_bytes,
            s.immutable_memtables_count == self.imm_memtables@.len(),
            s.levels_file_count@.len() == self.version_set.current.view().len(),
            forall|i: int| 0 <= i < s.levels_file_count@.len() ==>
                #[trigger] s.levels_file_count@[i] == self.version_set.current.view()[i].len(),
    {
        let mut counts: Vec<usize> = Vec::new();
        let levels = &self.version_set.current.levels;
        let mut i: usize = 0;
        while i < levels.len()
            invariant
                i <= levels@.len(),
                levels == &self.version_set.current.levels,
                counts@.len() == i,
                forall|j: int| 0 <= j < i ==> #[trigger] counts@[j] == self.version_set.current.view()[j].len(),
            decreases levels@.len() - i,
        {
            counts.push(levels[i].len());
            i = i + 1;
        }
        Stats {
            active_memtable_size: self.memtable.approximate_size(),
            immutable_memtables_count: self.imm_memtables.len(),
            levels_file_count: counts,
        }
    }
}

/// Entries of the frozen tables, oldest first.
pub open spec fn imm_entries(imms: Seq<MemTable>) -> Seq<EntryView>
    decreases imms.len(),
{
    if imms.len() == 0 {
        Seq::empty()
    } else {
        imm_entries(imms.drop_last()) + entry_views(imms.last().table.entries@)
    }
}

/// A file's key range holds `key`.
pub open spec fn covers(f: FileView, key: Seq<u8>) -> bool {
    !lex_lt(key, f.2) && !lex_lt(f.3, key)
}

/// File numbers of a level from the newest file to the oldest.
pub open spec fn newest_first(files: Seq<FileView>) -> Seq<u64>
    decreases files.len(),
{
    if files.len() == 0 {
        Seq::empty()
    } else {
        seq![files.last().0] + newest_first(files.drop_last())
    }
}

/// File numbers of the files of a level whose key range holds `key`, in order.
pub open spec fn covering(files: Seq<FileView>, key: Seq<u8>) -> Seq<u64>
    decreases files.len(),
{
    if files.len() == 0 {
        Seq::empty()
    } else {
        covering(files.drop_last(), key) + if covers(files.last(), key) { seq![files.last().0] } else { Seq::<u64>::empty() }
    }
}

/// Covering files of levels `1..n`, level after level.
pub open spec fn deeper_plan(levels: Seq<Seq<FileView>>, key: Seq<u8>, n: int) -> Seq<u64>
    decreases n,
{
    if n <= 1 {
        Seq::empty()
    } else {
        deeper_plan(levels, key, n - 1) + covering(levels[n - 1], key)
    }
}

/// The table files a lookup of `key` consults, in order: every file of level 0
/// from the newest, then on each deeper level the files whose range holds the key.
pub open spec fn lookup_plan(levels: Seq<Seq<FileView>>, key: Seq<u8>) -> Seq<u64> {
    if levels.len() == 0 {
        Seq::empty()
    } else {
        newest_first(levels[0]) + deeper_plan(levels, key, levels.len() as int)
    }
}

/// Every table file, level after level, each level in order.
pub open spec fn all_files(levels: Seq<Seq<FileView>>) -> Seq<u64>
    decreases levels.len(),
{
    if levels.len() == 0 {
        Seq::empty()
    } else {
        all_files(levels.drop_last()) + levels.last().map_values(|f: FileView| f.0)
    }
}

impl EngineCore {
    /// Everything held in memory, oldest first: the frozen tables, then the active one.
    pub open spec fn memory_entries(self) -> Seq<EntryView> {
        imm_entries(self.imm_memtables@) + entry_views(self.memtable.table.entries@)
    }

    /// Numbers of the table files a lookup of `key` reads, in the order it reads them.
    pub fn lookup_plan(&self, key: &[u8]) -> (r: Vec<u64>)
        ensures
            r@ == lookup_plan(self.version_set.current.view(), key@),
    {
        let levels = &self.version_set.current.levels;
        let ghost lv = self.version_set.current.view();
        let mut r: Vec<u64> = Vec::new();
        if levels.len() == 0 {
            return r;
        }
        let l0 = &levels[0];
        let mut i = l0.len();
        proof {
            assert(lv[0] == crate::manifest::version::files_view(l0@));
            assert(crate::manifest::version::files_view(l0@).take(i as int) =~= lv[0]);
        }
        while i > 0
            invariant
                i <= l0@.len(),
                l0 == &self.version_set.current.levels@[0],
                lv == self.version_set.current.view(),
                lv[0] == crate::manifest::version::files_view(l0@),
                r@ + newest_first(lv[0].take(i as int)) == newest_first(lv[0]),
            decreases i,
        {
            let ghost pre = lv[0].take(i as int);
            assert(pre.drop_last() =~= lv[0].take(i - 1));
            assert(pre.last() == crate::manifest::version::file_view(l0@[i - 1]));
            r.push(l0[i - 1].file_number);
            assert(r@ + newest_first(lv[0].take(i - 1)) =~= r@.drop_last() + newest_first(pre));
            i = i - 1;
        }
        assert(r@ + newest_first(lv[0].take(0)) =~= r@);
        let mut lvl: usize = 1;
        while lvl < levels.len()
            invariant
                1 <= lvl <= levels@.len(),
                levels == &self.version_set.current.levels,
                lv == self.version_set.current.view(),
                lv.len() == levels@.len(),
                r@ == newest_first(lv[0]) + deeper_plan(lv, key@, lvl as int),
            decreases levels@.len() - lvl,
        {
            let files = &levels[lvl];
            let ghost fv = lv[lvl as int];
            assert(fv == crate::manifest::version::files_view(files@));
            let ghost base = r@;
            let mut j: usize = 0;
            while j < files.len()
                invariant
                    j <= files@.len(),
                    fv == crate::manifest::version::files_view(files@),
                    r@ == base + covering(fv.take(j as int), key@),
                decreases files@.len() - j,
            {
                let f = &files[j];
                assert(fv.take(j + 1).drop_last() =~= fv.take(j as int));
                assert(fv.take(j + 1).last() == crate::manifest::version::file_view(files@[j as int]));
                if !key_lt(key, f.smallest_key.as_slice()) && !key_lt(f.largest_key.as_slice(), key) {
                    r.push(f.file_number);
                    assert(r@ =~= base + covering(fv.take(j + 1), key@));
                } else {
                    assert(r@ =~= base + covering(fv.take(j + 1), key@));
                }
                j = j + 1;
            }
            assert(fv.take(files@.len() as int) =~= fv);
            assert(r@ =~= newest_first(lv[0]) + deeper_plan(lv, key@, lvl + 1));
            lvl = lvl + 1;
        }
        r
    }

    /// Numbers of every table file, level after level: the files a range scan reads.
    pub fn scan_plan(&self) -> (r: Vec<u64>)
        ensures
            r@ == all_files(self.version_set.current.view()),
    {
        let levels = &self.version_set.current.levels;
        let ghost lv = self.version_set.current.view();
        let mut r: Vec<u64> = Vec::new();
        let mut lvl: usize = 0;
        while lvl < levels.len()
            invariant
                lvl <= levels@.len(),
                levels == &self.version_set.current.levels,
                lv == self.version_set.current.view(),
                lv.len() == levels@.len(),
                r@ == all_files(lv.take(lvl as int)),
            decreases levels@.len() - lvl,
        {
            let files = &levels[lvl];
            let ghost fv = lv[lvl as int];
            assert(fv == crate::manifest::version::files_view(files@));
            let ghost base = r@;
            let mut j: usize = 0;
            while j < files.len()
                invariant
                    j <= files@.len(),
                    fv == crate::manifest::version::files_view(files@),
                    r@ == base + fv.take(j as int).map_values(|f: FileView| f.0),
                decreases files@.len() - j,
            {
                r.push(files[j].file_number);
                assert(r@ =~= base + fv.take(j + 1).map_values(|f: FileView| f.0));
                j = j + 1;
            }
            assert(fv.take(files@.len() as int) =~= fv);
            assert(lv.take(lvl + 1).drop_last() =~= lv.take(lvl as int));
            assert(r@ =~= all_files(lv.take(lvl + 1)));
            lvl = lvl + 1;
        }
        assert(lv.take(levels@.len() as int) =~= lv);
        r
    }

    /// Range scan over the table images (in the order `scan_plan` gives) and
    /// the tables in memory: for every key in `[start, end)` the version with the
    /// highest sequence number wins (the first read among equal ones, images
    /// before frozen tables before the active one), deleted keys are left out,
    /// and the keys come out in ascending order. An image whose blocks cannot all
    /// be read makes the scan fail.
    pub fn scan(&self, start: &Option<Vec<u8>>, end: &Option<Vec<u8>>, tables: &Vec<Vec<u8>>)
        -> (r: Result<Vec<(Vec<u8>, Vec<u8>)>, FlashStoreError>)
        requires
            self.wf(),
            forall|i: int| 0 <= i < tables@.len() ==> table_wf(#[trigger] tables@[i]@),
        ensures
            r is Ok <==> forall|i: int| 0 <= i < tables@.len() ==> (#[trigger] table_contents(tables@[i]@)) is Some,
            r matches Ok(ps) ==> {
                let all = tables_entries(images(tables@)) + self.memory_entries();
                &&& pairs_sorted(ps@)
                &&& forall|i: int| 0 <= i < ps@.len() ==> in_range(#[trigger] ps@[i].0@, opt_view(*start), opt_view(*end))
                    && (latest_view(all, ps@[i].0@) matches Some(v) && v.1 == ps@[i].1@ && v.2 == ValueType::Value)
                &&& forall|k: Seq<u8>| in_range(k, opt_view(*start), opt_view(*end)) && (#[trigger] latest_view(all, k) matches Some(v)
                    && v.2 == ValueType::Value) ==> exists|i: int| 0 <= i < ps@.len() && ps@[i].0@ == k
            },
    {
        let mut all: Vec<Entry> = Vec::new();
        let mut t: usize = 0;
        while t < tables.len()
            invariant
                t <= tables@.len(),
                forall|i: int| 0 <= i < tables@.len() ==> table_wf(#[trigger] tables@[i]@),
                forall|i: int| 0 <= i < t ==> (#[trigger] table_contents(tables@[i]@)) is Some,
                entry_views(all@) == tables_entries(images(tables@).take(t as int)),
            decreases tables@.len() - t,
        {
            let img = &tables[t];
            let ghost iv = img@;
            assert(table_wf(iv));
            let reader = match TableReader::open(img.clone()) {
                Ok(rd) => rd,
                Err(e) => return Err(e),
            };
            proof { lemma_reader_matches_image(reader, iv); }
            let entries = match reader.read_all_entries() {
                Ok(es) => es,
                Err(e) => {
                    return Err(e);
                },
            };
            let ghost before = all@;
            let mut entries = entries;
            all.append(&mut entries);
            proof {
                assert(entry_views(all@) =~= entry_views(before) + table_contents(iv)->0);
                assert(images(tables@).take(t + 1).drop_last() =~= images(tables@).take(t as int));
                assert(images(tables@).take(t + 1).last() == iv);
            }
            t = t + 1;
        }
        assert(images(tables@).take(tables@.len() as int) =~= images(tables@));
        let mut k: usize = 0;
        let ghost tv = entry_views(all@);
        while k < self.imm_memtables.len()
            invariant
                self.wf(),
                k <= self.imm_memtables@.len(),
                entry_views(all@) == tv + imm_entries(self.imm_memtables@.take(k as int)),
            decreases self.imm_memtables@.len() - k,
        {
            let ghost before = all@;
            let mut es = crate::memtable::skiplist::copy_entries(&self.imm_memtables[k].table.entries);
            all.append(&mut es);
            proof {
                assert(self.imm_memtables@.take(k + 1).drop_last() =~= self.imm_memtables@.take(k as int));
                assert(entry_views(all@) =~= entry_views(before) + entry_views(self.imm_memtables@[k as int].table.entries@));
            }
            k = k + 1;
        }
        assert(self.imm_memtables@.take(self.imm_memtables@.len() as int) =~= self.imm_memtables@);
        let ghost before = all@;
        let mut es = crate::memtable::skiplist::copy_entries(&self.memtable.table.entries);
        all.append(&mut es);
        assert(entry_views(all@) =~= entry_views(before) + entry_views(self.memtable.table.entries@));
        let r = merge_scan(&all, start, end);
        proof {
            let allv = tables_entries(images(tables@)) + self.memory_entries();
            assert(entry_views(all@) =~= allv);
            assert forall|i: int| 0 <= i < r@.len() implies in_range(#[trigger] r@[i].0@, opt_view(*start), opt_view(*end))
                && (latest_view(allv, r@[i].0@) matches Some(v) && v.1 == r@[i].1@ && v.2 == ValueType::Value) by {
                lemma_latest_views(all@, r@[i].0@);
            }
            assert forall|key: Seq<u8>| in_range(key, opt_view(*start), opt_view(*end)) && (#[trigger] latest_view(allv, key) matches Some(v)
                && v.2 == ValueType::Value) implies exists|i: int| 0 <= i < r@.len() && r@[i].0@ == key by {
                lemma_latest_views(all@, key);
                assert(latest(all@, key) matches Some(v) && v.2 == ValueType::Value);
            }
        }
        Ok(r)
    }
}

/// Keeps the tables whose id is not `id`.
pub open spec fn others_than(id: usize) -> spec_fn(MemTable) -> bool {
    |m: MemTable| m.id != id
}

/// A table written from a frozen table: the image and the edit recording it,
/// when the frozen table held entries.
pub struct FlushJob {
    pub memtable_id: usize,
    pub file_number: u64,
    pub output: Option<(Vec<u8>, VersionEdit)>,
}

impl EngineCore {
    /// Turns the active table into a frozen one and starts an empty active
    /// table, unless the active table is empty. What memory answers is unchanged.
    pub fn freeze_memtable(&mut self) -> (r: bool)
        requires
            old(self).wf(),
        ensures
            r == !(old(self).memtable.size_bytes == 0 && old(self).memtable.table.entries@.len() == 0),
            !r ==> *final(self) == *old(self),
            r ==> {
                &&& final(self).imm_memtables@ == old(self).imm_memtables@.push(old(self).memtable)
                &&& final(self).memtable.id == old(self).memtable_id_seq
                &&& final(self).memtable.table.entries@.len() == 0
                &&& final(self).memtable.size_bytes == 0
                &&& final(self).memtable_id_seq == (if old(self).memtable_id_seq == usize::MAX { 0 } else { old(self).memtable_id_seq + 1 })
                &&& final(self).options == old(self).options
                &&& final(self).version_set == old(self).version_set
            },
            final(self).wf(),
            forall|k: Seq<u8>| #[trigger] final(self).memory_answer(k) == old(self).memory_answer(k),
    {
        if self.memtable.approximate_size() == 0 && self.memtable.is_empty() {
            return false;
        }
        let new_id = self.memtable_id_seq;
        self.memtable_id_seq = if new_id == usize::MAX { 0 } else { new_id + 1 };
        let mut frozen = MemTable::new(new_id);
        std::mem::swap(&mut self.memtable, &mut frozen);
        let ghost before = self.imm_memtables@;
        self.imm_memtables.push(frozen);
        proof {
            assert(self.imm_memtables@.drop_last() =~= before);
            assert forall|k: Seq<u8>| #[trigger] self.memory_answer(k) == old(self).memory_answer(k) by {
                assert(crate::memtable::skiplist::entry_for(self.memtable.table.entries@, k) is None);
            }
        }
        true
    }

    /// Writes the most recently frozen table into a table image numbered with
    /// the next file number; when it holds entries, also returns the edit that
    /// adds the file to level 0 with its key range and size, records the last
    /// sequence number, and records the file number after one more is handed out.
    /// Fails exactly when some entry finds no room in the builder (`build_run`):
    /// a block would outgrow its 32-bit offsets or the image the address space.
    /// The image reads back as exactly the frozen table's entries.
    #[verifier::loop_isolation(false)]
    pub fn build_flush(&mut self) -> (r: Result<FlushJob, FlashStoreError>)
        requires
            old(self).wf(),
            old(self).imm_memtables@.len() > 0,
            old(self).version_set.next_file_number + 2 <= u64::MAX,
            filter_fits(old(self).imm_memtables@.last().table.entries@.len() as int, old(self).options.bloom_bits_per_key as int),
        ensures
            final(self).wf(),
            final(self).memtable == old(self).memtable,
            final(self).imm_memtables == old(self).imm_memtables,
            final(self).options == old(self).options,
            final(self).memtable_id_seq == old(self).memtable_id_seq,
            final(self).version_set.current == old(self).version_set.current,
            final(self).version_set.last_sequence == old(self).version_set.last_sequence,
            final(self).version_set.max_levels == old(self).version_set.max_levels,
            r matches Err(e) ==> e is TableError,
            r is Ok <==> build_run(entry_views(old(self).imm_memtables@.last().table.entries@),
                old(self).options.block_size as int) is Some,
            r matches Ok(job) ==> ({
                let es = old(self).imm_memtables@.last().table.entries@;
                let n = old(self).version_set.next_file_number;
                &&& job.memtable_id == old(self).imm_memtables@.last().id
                &&& job.file_number == n
                &&& (job.output is Some) == (es.len() > 0)
                &&& es.len() == 0 ==> final(self).version_set.next_file_number == n + 1
                &&& job.output matches Some(out) ==> {
                    &&& final(self).version_set.next_file_number == n + 2
                    &&& out.1.view() == (Some((n + 1) as u64), Some(old(self).version_set.last_sequence),
                        seq![(0usize, (n, out.0@.len() as u64, es[0].key@, es.last().key@))], Seq::<(usize, u64)>::empty())
                    &&& table_wf(out.0@)
                    &&& table_sound(out.0@)
                    &&& table_contents(out.0@) == Some(entry_views(es))
                }
            }),
    {
        let file_num = self.version_set.next_file_number();
        let last = self.imm_memtables.len() - 1;
        let ghost es = self.imm_memtables@[last as int].table.entries@;
        let mem_id = self.imm_memtables[last].id();
        let entries = &self.imm_memtables[last].table.entries;
        let mut builder = TableBuilder::new(self.options.duplicate());
        let ghost s1 = *self;
        let mut i: usize = 0;
        proof { assert(es.take(0) =~= Seq::<Entry>::empty()); }
        while i < entries.len()
            invariant
                i <= entries@.len(),
                entries@ == es,
                *self == s1,
                builder.inv(),
                builder.options.bloom_bits_per_key == self.options.bloom_bits_per_key,
                builder.options.block_size == self.options.block_size,
                entry_views(builder.added()) == entry_views(es.take(i as int)),
                build_run(entry_views(es.take(i as int)), self.options.block_size as int)
                    == Some((builder.offset as int, entry_views(builder.current_entries@))),
            decreases entries@.len() - i,
        {
            let ghost prev = builder.added();
            let ghost pb = builder;
            let d = entries[i].duplicate();
            proof {
                let bs = self.options.block_size as int;
                let c2 = pb.current_entries@.push(d);
                assert(entry_views(es.take(i + 1)).drop_last() =~= entry_views(es.take(i as int)));
                assert(entry_views(es.take(i + 1)).last() == entry_view(d));
                assert(entry_views(c2) =~= entry_views(pb.current_entries@).push(entry_view(d)));
                crate::sstable::builder::lemma_views_size(c2);
            }
            match builder.add(d) {
                Ok(()) => {},
                Err(e) => {
                    proof {
                        assert(entry_views(es).take(i + 1) =~= entry_views(es.take(i + 1)));
                        crate::sstable::builder::lemma_build_run_fails_on(entry_views(es), self.options.block_size as int, i + 1);
                    }
                    return Err(e);
                },
            }
            proof {
                if sizes_sum(pb.current_entries@.push(d)) < pb.options.block_size {
                    assert(entry_views(builder.current_entries@) =~= entry_views(pb.current_entries@).push(entry_view(d)));
                } else {
                    assert(entry_views(builder.current_entries@) =~= Seq::<EntryView>::empty());
                }
            }
            proof {
                assert(es.take(i + 1) =~= es.take(i as int).push(es[i as int]));
                assert(entry_views(prev.push(d)) =~= entry_views(prev).push(entry_view(d)));
                assert(entry_views(es.take(i + 1)) =~= entry_views(es.take(i as int)).push(entry_view(es[i as int])));
            }
            i = i + 1;
        }
        proof {
            assert(es.take(i as int) =~= es);
            assert(entry_views(es.take(0)) =~= Seq::<EntryView>::empty());
            crate::sstable::builder::lemma_all_keys_len(builder);
            assert(self.imm_memtables@[last as int].wf());
            crate::merge::lemma_keys_sorted_views(builder.added(), es);
        }
        if entries.len() == 0 {
            return Ok(FlushJob { memtable_id: mem_id, file_number: file_num, output: None });
        }
        let smallest = entries[0].key.clone();
        let largest = entries[entries.len() - 1].key.clone();
        let image = builder.finish();
        let size = image.len() as u64;
        let meta = FileMetaData { file_number: file_num, file_size: size, smallest_key: smallest, largest_key: largest };
        let mut edit = VersionEdit::new();
        edit.add_file(0, meta);
        edit.last_sequence = Some(self.version_set.last_sequence());
        edit.next_file_number = Some(self.version_set.next_file_number());
        proof {
            assert(edit.view().2 =~= seq![(0usize, (file_num, image@.len() as u64, es[0].key@, es.last().key@))]);
        }
        Ok(FlushJob { memtable_id: mem_id, file_number: file_num, output: Some((image, edit)) })
    }

    /// Records a written table: applies its edit, then drops the frozen table it
    /// came from.
    pub fn commit_flush(&mut self, job: FlushJob)
        requires
            old(self).wf(),
        ensures
            final(self).wf(),
            final(self).memtable == old(self).memtable,
            final(self).options == old(self).options,
            final(self).memtable_id_seq == old(self).memtable_id_seq,
            final(self).imm_memtables@ == old(self).imm_memtables@.filter(others_than(job.memtable_id)),
            final(self).version_set.max_levels == old(self).version_set.max_levels,
            match job.output {
                Some(out) => {
                    &&& final(self).version_set.current.view() == apply_edit(old(self).version_set.current.view(), out.1.view())
                    &&& final(self).version_set.next_file_number == match out.1.next_file_number { Some(n) => n, None => old(self).version_set.next_file_number }
                    &&& final(self).version_set.last_sequence == match out.1.last_sequence { Some(n) => n, None => old(self).version_set.last_sequence }
                },
                None => final(self).version_set == old(self).version_set,
            },
    {
        let id = job.memtable_id;
        match job.output {
            Some(out) => {
                let (_, edit) = out;
                self.version_set.log_and_apply(edit);
            },
            None => {},
        }
        let mut kept: Vec<MemTable> = Vec::new();
        let ghost imms = self.imm_memtables@;
        let mut old_imms: Vec<MemTable> = Vec::new();
        std::mem::swap(&mut self.imm_memtables, &mut old_imms);
        let ghost all = old_imms@;
        proof { assert(all.take(0).filter(others_than(id)) =~= Seq::<MemTable>::empty()); }
        let mut i: usize = 0;
        let n = old_imms.len();
        while old_imms.len() > 0
            invariant
                n == all.len(),
                old_imms@.len() <= n,
                old_imms@ == all.skip(n - old_imms@.len()),
                kept@ == all.take(n - old_imms@.len()).filter(others_than(id)),
                forall|j: int| 0 <= j < all.len() ==> (#[trigger] all[j]).wf(),
            decreases old_imms@.len(),
        {
            let ghost done = (n - old_imms@.len()) as int;
            let m = old_imms.remove(0);
            proof {
                assert(all.skip(done)[0] == all[done]);
                assert(old_imms@ =~= all.skip(done + 1));
                assert(all.take(done + 1).drop_last() =~= all.take(done));
                reveal(Seq::filter);
                assert(all.take(done + 1) =~= all.take(done).push(all[done]));
            }
            if m.id != id {
                kept.push(m);
            }
        }
        proof { assert(all.take(n as int) =~= all); }
        self.imm_memtables = kept;
        proof {
            assert forall|j: int| 0 <= j < self.imm_memtables@.len() implies (#[trigger] self.imm_memtables@[j]).wf() by {
                assert(self.imm_memtables@.contains(self.imm_memtables@[j]));
                all.lemma_filter_contains_rev(others_than(id), self.imm_memtables@[j]);
            }
        }
    }
}

impl EngineCore {
    /// The compaction policy of these options.
    pub open spec fn compactor(self) -> Compactor {
        Compactor { max_levels: self.options.max_levels, base_level_size_bytes: self.options.base_level_size_bytes, l0_compaction_trigger: 4 }
    }

    /// Chooses the next compaction of the current levels, with the files of the
    /// target level whose key range overlaps the inputs' range.
    pub fn plan_compaction(&self) -> (r: Option<(CompactionTask, Vec<FileMetaData>)>)
        requires
            forall|l: int| 0 <= l < self.version_set.current.view().len()
                ==> level_size(#[trigger] self.version_set.current.view()[l]) <= u64::MAX,
        ensures
            match picked_level(self.version_set.current.view(), self.options.base_level_size_bytes as int,
                self.options.max_levels as int, 4) {
                None => r is None,
                Some(l) => r matches Some(p) && {
                    let lv = self.version_set.current.view();
                    &&& p.0.level == l
                    &&& p.0.target_level == l + 1
                    &&& crate::manifest::version::files_view(p.0.input_files@) == lv[l]
                    &&& crate::manifest::version::files_view(p.1@) == if l + 1 < lv.len() {
                        overlapping(lv[l + 1], min_smallest(lv[l]), max_largest(lv[l]))
                    } else {
                        Seq::<FileView>::empty()
                    }
                },
            },
    {
        let compactor = Compactor::new(self.options.max_levels, self.options.base_level_size_bytes);
        let levels = self.version_set.current.levels.as_slice();
        proof {
            crate::compaction::lemma_picked_level(self.version_set.current.view(), self.options.base_level_size_bytes as int,
                self.options.max_levels as int, 4);
        }
        let task = match compactor.pick_compaction(levels) {
            Some(t) => t,
            None => return None,
        };
        let ghost lv = self.version_set.current.view();
        let target = task.target_level;
        let overlap = if target < levels.len() && task.input_files.len() > 0 {
            let (lo, hi) = crate::compaction::key_range(&task.input_files);
            proof { assert(lv[target as int] == crate::manifest::version::files_view(levels@[target as int]@)); }
            crate::compaction::find_overlapping_files(&levels[target], lo.as_slice(), hi.as_slice())
        } else {
            Vec::new()
        };
        proof {
            if !(target < levels@.len()) {
                assert(crate::manifest::version::files_view(overlap@) =~= Seq::<FileView>::empty());
            } else if task.input_files@.len() == 0 {
                assert(crate::manifest::version::files_view(task.input_files@).len() == 0);
                assert(false);
            }
        }
        Some((task, overlap))
    }

    /// Merges a planned compaction into a table numbered with the next file
    /// number; its edit also records the file number after it and the last
    /// sequence number. Fails exactly where `Compactor::run_compaction` does.
    pub fn build_compaction(&mut self, task: &CompactionTask, target_files: &Vec<FileMetaData>, inputs: &Vec<Vec<u8>>)
        -> (r: Result<CompactionOutput, FlashStoreError>)
        requires
            old(self).version_set.next_file_number < u64::MAX,
            forall|i: int| 0 <= i < inputs@.len() ==> table_wf(#[trigger] inputs@[i]@),
        ensures
            final(self).version_set.next_file_number == old(self).version_set.next_file_number + 1,
            final(self).version_set.current == old(self).version_set.current,
            final(self).version_set.last_sequence == old(self).version_set.last_sequence,
            final(self).version_set.max_levels == old(self).version_set.max_levels,
            final(self).memtable == old(self).memtable,
            final(self).imm_memtables == old(self).imm_memtables,
            final(self).options == old(self).options,
            final(self).memtable_id_seq == old(self).memtable_id_seq,
            r matches Err(e) ==> e is TableError || exists|i: int| 0 <= i < inputs@.len()
                && (#[trigger] table_contents(inputs@[i]@)) is None,
            (forall|i: int| 0 <= i < inputs@.len() ==> (#[trigger] table_contents(inputs@[i]@)) is Some)
                && (forall|vs: Seq<EntryView>| #[trigger] survivors(tables_entries(images(inputs@)), old(self).compactor().drops_tombstones(*task), vs)
                    ==> table_fits(vs, old(self).options.block_size as int, old(self).options.bloom_bits_per_key as int))
                ==> r is Ok,
            r is Err ==> (exists|i: int| 0 <= i < inputs@.len() && (#[trigger] table_contents(inputs@[i]@)) is None)
                || exists|vs: Seq<EntryView>| #[trigger] survivors(tables_entries(images(inputs@)), old(self).compactor().drops_tombstones(*task), vs)
                    && !table_fits(vs, old(self).options.block_size as int, old(self).options.bloom_bits_per_key as int),
            r matches Ok(out) ==> ({
                let n = old(self).version_set.next_file_number;
                let all = tables_entries(images(inputs@));
                let drop = old(self).compactor().drops_tombstones(*task);
                &&& out.edit.view().0 == Some((n + 1) as u64)
                &&& out.edit.view().1 == Some(old(self).version_set.last_sequence)
                &&& out.edit.view().3 == removals(task.level, crate::manifest::version::files_view(task.input_files@))
                    + removals(task.target_level, crate::manifest::version::files_view(target_files@))
                &&& match out.image {
                    Some(img) => table_wf(img@) && table_sound(img@) && (table_contents(img@) matches Some(vs) && {
                        &&& vs.len() > 0
                        &&& views_sorted(vs)
                        &&& forall|k: Seq<u8>| #[trigger] view_for(vs, k) == compacted_for(all, drop, k)
                        &&& out.edit.view().2 == seq![(task.target_level, (n, img@.len() as u64, vs[0].0, vs.last().0))]
                    }),
                    None => (forall|k: Seq<u8>| #[trigger] compacted_for(all, drop, k) is None)
                        && out.edit.view().2.len() == 0,
                }
            }),
    {
        let file_number = self.version_set.next_file_number();
        let compactor = Compactor::new(self.options.max_levels, self.options.base_level_size_bytes);
        let mut out = match compactor.run_compaction(task, target_files, inputs, &self.options, file_number) {
            Ok(o) => o,
            Err(e) => return Err(e),
        };
        out.edit.next_file_number = Some(self.version_set.next_file_number);
        out.edit.last_sequence = Some(self.version_set.last_sequence);
        Ok(out)
    }

    /// Applies an edit that was written to the manifest.
    pub fn commit_edit(&mut self, edit: VersionEdit)
        ensures
            final(self).version_set.current.view() == apply_edit(old(self).version_set.current.view(), edit.view()),
            final(self).version_set.next_file_number == match edit.next_file_number { Some(n) => n, None => old(self).version_set.next_file_number },
            final(self).version_set.last_sequence == match edit.last_sequence { Some(n) => n, None => old(self).version_set.last_sequence },
            final(self).version_set.max_levels == old(self).version_set.max_levels,
            final(self).memtable == old(self).memtable,
            final(self).imm_memtables == old(self).imm_memtables,
            final(self).options == old(self).options,
            final(self).memtable_id_seq == old(self).memtable_id_seq,
    {
        self.version_set.log_and_apply(edit);
    }
}

/// The answer of the first of the tables `i..` that answers for `key`.
pub open spec fn tables_answer(ts: Seq<Seq<u8>>, key: Seq<u8>, i: int) -> Option<Option<Seq<u8>>>
    decreases ts.len() - i,
{
    if i < 0 || i >= ts.len() {
        None
    } else if table_answer(ts[i], key) is Some {
        table_answer(ts[i], key)
    } else {
        tables_answer(ts, key, i + 1)
    }
}

/// A lookup's result from an answer: the value, or nothing for a deletion or no answer.
pub open spec fn value_of(a: Option<Option<Seq<u8>>>) -> Option<Seq<u8>> {
    match a {
        Some(Some(v)) => Some(v),
        _ => None,
    }
}

impl EngineCore {
    /// What a read of `key` gives over table images in lookup order: the answer
    /// of the tables in memory if they have one, else the first answer of the
    /// images; a deletion or no answer reads as nothing.
    pub open spec fn read_answer(self, tables: Seq<Seq<u8>>, key: Seq<u8>) -> Option<Seq<u8>> {
        if self.memory_answer(key) is Some {
            value_of(self.memory_answer(key))
        } else {
            value_of(tables_answer(tables, key, 0))
        }
    }

    /// Looks `key` up: the tables in memory first, then the table images in the
    /// order `lookup_plan` gives; the first answer wins, and a deletion reads as
    /// nothing. Over images laid out as the builder writes them, the result is the
    /// first answer of the images.
    pub fn get(&self, key: &[u8], tables: &Vec<Vec<u8>>) -> (r: Result<Option<Vec<u8>>, FlashStoreError>)
        requires
            self.wf(),
            forall|i: int| 0 <= i < tables@.len() ==> table_wf(#[trigger] tables@[i]@),
        ensures
            self.memory_answer(key@) is Some ==> (r matches Ok(v) && opt_view(v) == value_of(self.memory_answer(key@))),
            self.memory_answer(key@) is None && (forall|i: int| 0 <= i < tables@.len() ==> table_sound(#[trigger] tables@[i]@))
                ==> (r matches Ok(v) && opt_view(v) == value_of(tables_answer(images(tables@), key@, 0))),
            (forall|i: int| 0 <= i < tables@.len() ==> table_sound(#[trigger] tables@[i]@))
                ==> (r matches Ok(v) && opt_view(v) == self.read_answer(images(tables@), key@)),
    {
        match self.get_from_memory(key) {
            Some(a) => return Ok(a),
            None => {},
        }
        let ghost ts = images(tables@);
        let ghost sound = forall|i: int| 0 <= i < tables@.len() ==> table_sound(#[trigger] tables@[i]@);
        let mut t: usize = 0;
        while t < tables.len()
            invariant
                t <= tables@.len(),
                ts == images(tables@),
                forall|i: int| 0 <= i < tables@.len() ==> table_wf(#[trigger] tables@[i]@),
                sound == forall|i: int| 0 <= i < tables@.len() ==> table_sound(#[trigger] tables@[i]@),
                sound ==> tables_answer(ts, key@, 0) == tables_answer(ts, key@, t as int),
                self.memory_answer(key@) is None,
            decreases tables@.len() - t,
        {
            let img = &tables[t];
            let ghost iv = img@;
            assert(ts[t as int] == iv);
            let reader = match TableReader::open(img.clone()) {
                Ok(rd) => rd,
                Err(e) => return Err(e),
            };
            proof { lemma_reader_matches_image(reader, iv); }
            let res = reader.get(key);
            proof {
                if sound {
                    assert(table_sound(iv));
                    assert(tbl_index(iv) == (crate::wire::key_views(reader.first_keys@), reader.block_offsets@));
                    if !filter_admits(reader.bloom_filter@, key@) {
                        lemma_sound_filter(iv, key@);
                    } else {
                        let p = choose|p: int| #[trigger] split_point(crate::wire::key_views(reader.first_keys@), key@, p)
                            && if block_for(p) >= reader.n_blocks() {
                                res matches Ok(None)
                            } else {
                                match reader.block_read(block_for(p)) {
                                    Some(es) => res matches Ok(a) && answer_view(a)
                                        == crate::sstable::reader::lookup_answer(crate::sstable::reader::first_with_key(es, key@)),
                                    None => res is Err,
                                }
                            };
                        lemma_sound_split(iv, key@, p);
                    }
                }
            }
            match res {
                Ok(Some(a)) => {
                    return Ok(a);
                },
                Ok(None) => {},
                Err(e) => {
                    return Err(e);
                },
            }
            t = t + 1;
        }
        Ok(None)
    }
}

/// Writes are read back: once logged records are applied to the active table,
/// a read of any key gives what the last of those records that touches it
/// says (its value, or nothing for a deletion), and what it gave before for a
/// key no record touches. So of two puts the later one is read, a delete reads
/// as nothing, and a batch changes exactly the keys it touches, each as its last
/// operation on it says.
pub proof fn law_writes_are_read(before: EngineCore, after: EngineCore, recs: Seq<RecordView>, tables: Seq<Seq<u8>>, key: Seq<u8>)
    requires
        forall|k: Seq<u8>| #[trigger] after.memtable.answer(k) == answer_after(before.memtable.answer(k), recs, k),
        after.imm_memtables@ == before.imm_memtables@,
    ensures
        after.read_answer(tables, key) == match replay_answer(recs, key) {
            Some(a) => value_of(Some(a)),
            None => before.read_answer(tables, key),
        },
{
    assert(after.memtable.answer(key) == answer_after(before.memtable.answer(key), recs, key));
}

/// Every record of `recs` is newer than `floor`: nothing is left out.
proof fn lemma_newer_than_all(recs: Seq<RecordView>, floor: u64)
    requires
        forall|i: int| 0 <= i < recs.len() ==> (#[trigger] recs[i]).3 > floor,
    ensures
        newer_than(recs, floor) == recs,
    decreases recs.len(),
{
    if recs.len() > 0 {
        lemma_newer_than_all(recs.drop_last(), floor);
        assert(recs.drop_last().push(recs.last()) =~= recs);
    }
}

/// Reopening restores what memory held: when the active table holds exactly
/// the records of the log's appends (as it does since the last flush emptied
/// the log), all newer than the manifest's last sequence number, the table
/// recovery rebuilds from that log answers every key as the active table did.
pub proof fn law_reopen_restores_memory(
    before: EngineCore,
    recovered: EngineCore,
    appends: Seq<Seq<u8>>,
    batches: Seq<Seq<RecordView>>,
    floor: u64,
)
    requires
        appends.len() == batches.len(),
        forall|i: int| 0 <= i < appends.len() ==> frames_records(#[trigger] appends[i], batches[i]),
        forall|k: Seq<u8>| #[trigger] before.memtable.answer(k) == replay_answer(concat_records(batches), k),
        forall|i: int| 0 <= i < concat_records(batches).len() ==> (#[trigger] concat_records(batches)[i]).3 > floor,
        forall|k: Seq<u8>| #[trigger] recovered.memtable.answer(k)
            == replay_answer(newer_than(log_records(concat_bytes(appends)), floor), k),
    ensures
        forall|k: Seq<u8>| #[trigger] recovered.memtable.answer(k) == before.memtable.answer(k),
{
    crate::wal::log::law_log_replays(appends, batches);
    lemma_newer_than_all(concat_records(batches), floor);
}

pub proof fn lemma_tables_answer_shift(a: Seq<u8>, ts: Seq<Seq<u8>>, key: Seq<u8>, i: int)
    requires
        0 <= i,
    ensures
        tables_answer(seq![a] + ts, key, i + 1) == tables_answer(ts, key, i),
    decreases ts.len() - i,
{
    if i < ts.len() {
        assert((seq![a] + ts)[i + 1] == ts[i]);
        lemma_tables_answer_shift(a, ts, key, i + 1);
    }
}

proof fn lemma_deeper_plan_same(a: Seq<Seq<FileView>>, b: Seq<Seq<FileView>>, key: Seq<u8>, n: int)
    requires
        a.len() == b.len(),
        n <= a.len(),
        forall|l: int| 1 <= l < a.len() ==> #[trigger] a[l] == b[l],
    ensures
        deeper_plan(a, key, n) == deeper_plan(b, key, n),
    decreases n,
{
    if n > 1 {
        lemma_deeper_plan_same(a, b, key, n - 1);
        assert(a[n - 1] == b[n - 1]);
    }
}

/// A flush keeps every read: when the active table (with no other table
/// frozen) is written out as a table whose file the edit adds to level 0, the
/// new file comes first in every lookup, level 0 holds one file more and the
/// other levels are unchanged, and a read over the new table and the tables
/// read before gives what the read gave before.
pub proof fn law_flush_keeps_reads(
    before: EngineCore,
    after: EngineCore,
    img: Seq<u8>,
    edit: EditView,
    f: FileView,
    tables: Seq<Seq<u8>>,
    key: Seq<u8>,
)
    requires
        before.wf(),
        before.imm_memtables@.len() == 0,
        after.memtable.table.entries@.len() == 0,
        after.imm_memtables@.len() == 0,
        table_sound(img),
        table_contents(img) == Some(entry_views(before.memtable.table.entries@)),
        before.version_set.current.view().len() > 0,
        edit.2 == seq![(0usize, f)],
        edit.3.len() == 0,
        after.version_set.current.view() == apply_edit(before.version_set.current.view(), edit),
    ensures
        lookup_plan(after.version_set.current.view(), key) == seq![f.0] + lookup_plan(before.version_set.current.view(), key),
        after.read_answer(seq![img] + tables, key) == before.read_answer(tables, key),
        after.version_set.current.view()[0].len() == before.version_set.current.view()[0].len() + 1,
        forall|l: int| 1 <= l < before.version_set.current.view().len()
            ==> #[trigger] after.version_set.current.view()[l] == before.version_set.current.view()[l],
{
    let ls = before.version_set.current.view();
    let ls2 = after.version_set.current.view();
    assert(apply_deletes(ls, edit.3) == ls);
    assert(edit.2.drop_last() =~= Seq::<(usize, FileView)>::empty());
    assert(apply_adds(ls, Seq::<(usize, FileView)>::empty()) == ls);
    assert(apply_adds(ls, edit.2) == ls.update(0, ls[0].push(f)));
    assert(ls2 == apply_adds(apply_deletes(ls, edit.3), edit.2));
    assert(ls2 == ls.update(0, ls[0].push(f)));
    assert(ls2[0].drop_last() =~= ls[0]);
    lemma_deeper_plan_same(ls2, ls, key, ls.len() as int);
    assert(newest_first(ls2[0]) == seq![f.0] + newest_first(ls[0]));
    assert(lookup_plan(ls2, key) =~= seq![f.0] + lookup_plan(ls, key));
    law_flush_preserves_answers(before.memtable, img, key);
    assert(crate::memtable::skiplist::entry_for(after.memtable.table.entries@, key) is None);
    assert((seq![img] + tables)[0] == img);
    lemma_tables_answer_shift(img, tables, key, 0);
}

/// A read after a write sees the write: once records are applied to the
/// active table, the tables in memory answer the key of the last record with
/// its value, or with a deletion where it deletes.
pub proof fn law_read_after_write(before: EngineCore, after: EngineCore, recs: Seq<RecordView>)
    requires
        recs.len() > 0,
        forall|k: Seq<u8>| #[trigger] after.memtable.answer(k) == answer_after(before.memtable.answer(k), recs, k),
    ensures
        after.memory_answer(recs.last().0) == (if recs.last().2 {
            Some(None::<Seq<u8>>)
        } else {
            Some(Some(recs.last().1))
        }),
{
    let k = recs.last().0;
    assert(after.memtable.answer(k) == answer_after(before.memtable.answer(k), recs, k));
}

/// A table written from a frozen table answers every lookup exactly as the
/// frozen table did, so writing a table out does not change what a read returns.
pub proof fn law_flush_preserves_answers(m: MemTable, img: Seq<u8>, key: Seq<u8>)
    requires
        m.wf(),
        table_sound(img),
        table_contents(img) == Some(entry_views(m.table.entries@)),
    ensures
        table_answer(img, key) == m.answer(key),
{
    crate::merge::lemma_entry_for_views(m.table.entries@);
    crate::sstable::lookup::lemma_first_with_key_sorted(entry_views(m.table.entries@), key);
}

/// Reading the table a compaction wrote gives, for every key, the winning
/// version among the compaction's inputs, unless that is a deletion dropped on
/// the last level.
pub proof fn law_compaction_keeps_latest(img: Seq<u8>, all: Seq<EntryView>, drop_tombstones: bool, key: Seq<u8>)
    requires
        table_sound(img),
        table_contents(img) matches Some(vs) && views_sorted(vs)
            && forall|k: Seq<u8>| #[trigger] view_for(vs, k) == compacted_for(all, drop_tombstones, k),
    ensures
        table_answer(img, key) == crate::sstable::reader::lookup_answer(compacted_for(all, drop_tombstones, key)),
{
    let vs = table_contents(img)->0;
    crate::sstable::lookup::lemma_first_with_key_sorted(vs, key);
    assert(view_for(vs, key) == compacted_for(all, drop_tombstones, key));
}

/// Freezing the active table and writing it out keeps every answer: a key the
/// active table answered is answered the same by the written table.
pub proof fn law_read_after_flush(before: EngineCore, img: Seq<u8>, key: Seq<u8>)
    requires
        before.wf(),
        table_sound(img),
        table_contents(img) == Some(entry_views(before.memtable.table.entries@)),
        before.memtable.answer(key) is Some,
    ensures
        table_answer(img, key) == before.memory_answer(key),
{
    law_flush_preserves_answers(before.memtable, img, key);
}

proof fn lemma_records_size_prefix(rs: Seq<WalRecord>, i: int)
    requires
        0 <= i <= rs.len(),
    ensures
        records_size(rs.take(i)) <= records_size(rs),
        records_size(rs.take(i)) >= 0,
    decreases rs.len() - i,
{
    if i < rs.len() {
        lemma_records_size_prefix(rs, i + 1);
        assert(rs.take(i + 1).drop_last() =~= rs.take(i));
        lemma_records_size_nonneg(rs.take(i));
    } else {
        assert(rs.take(i) =~= rs);
        lemma_records_size_nonneg(rs);
    }
}

proof fn lemma_records_size_nonneg(rs: Seq<WalRecord>)
    ensures
        records_size(rs) >= 0,
    decreases rs.len(),
{
    if rs.len() > 0 {
        lemma_records_size_nonneg(rs.drop_last());
    }
}

proof fn lemma_records_size_le_frames(rs: Seq<WalRecord>)
    ensures
        records_size(rs) <= frames_len(rs),
    decreases rs.len(),
{
    if rs.len() > 0 {
        lemma_records_size_le_frames(rs.drop_last());
    }
}

} // verus!
