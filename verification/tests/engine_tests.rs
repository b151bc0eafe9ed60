use flash_store::batch::WriteBatch;
use flash_store::compaction::level_sizes_fit;
use flash_store::config::{Options, OptionsBuilder};
use flash_store::engine::EngineCore;
use flash_store::manifest::encode_edit_record;
use flash_store::sstable::builder::filter_fits_for;
use flash_store::wal::log::encode_batch;
use flash_store::manifest::version::VersionEdit;
use flash_store::wal::record::WalRecord;

/// An in-memory stand-in for the files of a store.
struct Disk {
    wal: Vec<u8>,
    manifest: Vec<u8>,
    tables: Vec<(u64, Vec<u8>)>,
}

struct Store {
    core: EngineCore,
    disk: Disk,
}

impl Store {
    fn open(options: Options, disk: Disk) -> Store {
        let core = EngineCore::recover(options, &disk.manifest, &disk.wal).unwrap();
        Store { core, disk }
    }

    fn image(&self, n: u64) -> Vec<u8> {
        self.disk.tables.iter().find(|t| t.0 == n).unwrap().1.clone()
    }

    fn put(&mut self, k: &[u8], v: &[u8]) {
        let rec = self.core.prepare_put(k.to_vec(), v.to_vec());
        self.disk.wal.extend(encode_batch(&[rec.clone()]));
        self.core.apply_records(&vec![rec]);
        self.maybe_flush();
    }

    fn delete(&mut self, k: &[u8]) {
        let rec = self.core.prepare_delete(k.to_vec());
        self.disk.wal.extend(encode_batch(&[rec.clone()]));
        self.core.apply_records(&vec![rec]);
        self.maybe_flush();
    }

    fn write_batch(&mut self, b: &WriteBatch) {
        let recs = self.core.prepare_batch(b);
        self.disk.wal.extend(encode_batch(&recs));
        self.core.apply_records(&recs);
        self.maybe_flush();
    }

    fn maybe_flush(&mut self) {
        if self.core.should_flush() {
            self.flush();
        }
    }

    fn flush(&mut self) {
        if !self.core.freeze_memtable() {
            return;
        }
        self.disk.wal.clear();
        let n = self.core.imm_memtables.last().unwrap().len();
        assert!(filter_fits_for(n, self.core.options.bloom_bits_per_key));
        let job = self.core.build_flush().unwrap();
        if let Some((image, edit)) = &job.output {
            self.disk.tables.push((job.file_number, image.clone()));
            self.disk.manifest.extend(encode_edit_record(edit));
        }
        self.core.commit_flush(job);
    }

    fn compact(&mut self) {
        for _ in 0..100 {
            assert!(level_sizes_fit(&self.core.version_set.current.levels));
            let (task, overlap) = match self.core.plan_compaction() {
                Some(p) => p,
                None => break,
            };
            let mut inputs = Vec::new();
            for f in task.input_files.iter().chain(overlap.iter()) {
                inputs.push(self.image(f.file_number));
            }
            let out = self.core.build_compaction(&task, &overlap, &inputs).unwrap();
            if let Some(image) = &out.image {
                let n = out.edit.new_files[0].1.file_number;
                self.disk.tables.push((n, image.clone()));
            }
            self.disk.manifest.extend(encode_edit_record(&out.edit));
            for (_, n) in &out.edit.deleted_files {
                self.disk.tables.retain(|t| t.0 != *n);
            }
            self.core.commit_edit(out.edit);
        }
    }

    fn get(&self, k: &[u8]) -> Option<Vec<u8>> {
        let plan = self.core.lookup_plan(k);
        let images: Vec<Vec<u8>> = plan.iter().map(|n| self.image(*n)).collect();
        self.core.get(k, &images).unwrap()
    }

    fn scan(&self, start: Option<&[u8]>, end: Option<&[u8]>) -> Vec<(Vec<u8>, Vec<u8>)> {
        let plan = self.core.scan_plan();
        let images: Vec<Vec<u8>> = plan.iter().map(|n| self.image(*n)).collect();
        self.core.scan(&start.map(|s| s.to_vec()), &end.map(|s| s.to_vec()), &images).unwrap()
    }

    fn reopen(self) -> Store {
        let options = self.core.options.duplicate();
        Store::open(options, self.disk)
    }
}

fn fresh(options: Options) -> Store {
    Store::open(options, Disk { wal: Vec::new(), manifest: Vec::new(), tables: Vec::new() })
}

#[test]
fn test_engine_empty_flush() {
    let mut db = fresh(Options::default());
    db.flush();
    assert_eq!(db.core.stats().levels_file_count[0], 0);
}

#[test]
fn test_engine_delete_non_existent() {
    let mut db = fresh(Options::default());
    db.delete(b"non_existent");
    assert_eq!(db.get(b"non_existent"), None);
}

#[test]
fn test_engine_multiple_flushes_and_scan() {
    let mut db = fresh(Options::default());
    db.put(b"k1", b"v1");
    db.flush();
    db.put(b"k2", b"v2");
    db.flush();
    db.put(b"k3", b"v3");
    db.flush();
    assert_eq!(db.core.stats().levels_file_count[0], 3);
    let entries = db.scan(None, None);
    assert_eq!(entries.len(), 3);
    assert_eq!(entries[0].0, b"k1".to_vec());
    assert_eq!(entries[1].0, b"k2".to_vec());
    assert_eq!(entries[2].0, b"k3".to_vec());
}

#[test]
fn test_engine_compaction_and_data_integrity() {
    let mut db = fresh(OptionsBuilder::new().block_size(64).build());
    for i in 1..=4 {
        db.put(format!("key_{}", i).as_bytes(), format!("val_{}", i).as_bytes());
        db.flush();
    }
    assert_eq!(db.core.stats().levels_file_count[0], 4);
    db.compact();
    let stats = db.core.stats();
    assert_eq!(stats.levels_file_count[0], 0);
    assert_eq!(stats.levels_file_count[1], 1);
    for i in 1..=4 {
        assert_eq!(db.get(format!("key_{}", i).as_bytes()), Some(format!("val_{}", i).into_bytes()));
    }
}

#[test]
fn test_engine_wal_recovery_and_persistence() {
    let mut db = fresh(Options::default());
    db.put(b"persist_k1", b"persist_v1");
    db.put(b"persist_k2", b"persist_v2");
    db.delete(b"persist_k1");
    let db = db.reopen();
    assert_eq!(db.get(b"persist_k1"), None);
    assert_eq!(db.get(b"persist_k2"), Some(b"persist_v2".to_vec()));
    assert_eq!(db.core.last_sequence(), 3);
}

#[test]
fn test_reopen_after_flush_keeps_tables_and_wal() {
    let mut db = fresh(Options::default());
    db.put(b"a", b"1");
    db.put(b"b", b"2");
    db.flush();
    db.put(b"c", b"3");
    let db = db.reopen();
    assert_eq!(db.get(b"a"), Some(b"1".to_vec()));
    assert_eq!(db.get(b"b"), Some(b"2".to_vec()));
    assert_eq!(db.get(b"c"), Some(b"3".to_vec()));
    assert_eq!(db.core.stats().levels_file_count[0], 1);
    assert_eq!(db.core.last_sequence(), 3);
}

#[test]
fn test_write_batch_and_overwrites() {
    let mut db = fresh(Options::default());
    let mut b = WriteBatch::new();
    b.put(b"x".to_vec(), b"1".to_vec());
    b.put(b"y".to_vec(), b"2".to_vec());
    b.delete(b"x".to_vec());
    db.write_batch(&b);
    assert_eq!(db.get(b"x"), None);
    assert_eq!(db.get(b"y"), Some(b"2".to_vec()));
    assert_eq!(db.core.last_sequence(), 3);
    db.put(b"y", b"3");
    db.flush();
    db.put(b"y", b"4");
    assert_eq!(db.get(b"y"), Some(b"4".to_vec()));
}

#[test]
fn test_auto_flush_with_small_memtable() {
    let mut db = fresh(OptionsBuilder::new().memtable_size(64).build());
    for i in 0..10 {
        db.put(format!("key{}", i).as_bytes(), b"0123456789");
    }
    assert!(db.core.stats().levels_file_count[0] >= 1);
    for i in 0..10 {
        assert_eq!(db.get(format!("key{}", i).as_bytes()), Some(b"0123456789".to_vec()));
    }
}

#[test]
fn test_range_scan_bounds_and_tombstones() {
    let mut db = fresh(Options::default());
    for k in [b"a", b"b", b"c", b"d", b"e"] {
        db.put(k, k);
    }
    db.flush();
    db.delete(b"c");
    let r = db.scan(Some(b"b"), Some(b"e"));
    let keys: Vec<Vec<u8>> = r.iter().map(|p| p.0.clone()).collect();
    assert_eq!(keys, vec![b"b".to_vec(), b"d".to_vec()]);
    assert!(db.scan(Some(b"x"), None).is_empty());
}

#[test]
fn test_interleaved_cycles_survive_reopen() {
    let mut db = fresh(OptionsBuilder::new().block_size(64).build());
    for i in 0..20 {
        db.put(format!("k_{:03}", i).as_bytes(), format!("val_{:03}", i).as_bytes());
    }
    db.flush();
    for i in 0..20 {
        if i % 2 == 0 {
            db.put(format!("k_{:03}", i).as_bytes(), format!("val_updated_{:03}", i).as_bytes());
        } else {
            db.delete(format!("k_{:03}", i).as_bytes());
        }
    }
    db.flush();
    for i in 20..30 {
        db.put(format!("k_{:03}", i).as_bytes(), format!("val_{:03}", i).as_bytes());
    }
    db.flush();
    db.flush();
    db.put(b"k_999", b"x");
    db.flush();
    db.compact();
    for i in 0..20 {
        if i % 2 == 0 {
            assert_eq!(db.get(format!("k_{:03}", i).as_bytes()), Some(format!("val_updated_{:03}", i).into_bytes()));
        } else {
            assert_eq!(db.get(format!("k_{:03}", i).as_bytes()), None);
        }
    }
    for i in 20..30 {
        assert_eq!(db.get(format!("k_{:03}", i).as_bytes()), Some(format!("val_{:03}", i).into_bytes()));
    }
    let db = db.reopen();
    assert_eq!(db.get(b"k_002"), Some(b"val_updated_002".to_vec()));
    assert_eq!(db.get(b"k_003"), None);
}

#[test]
fn test_manifest_decode_error() {
    let opts = Options::default();
    assert!(EngineCore::recover(opts, &[3, 0, 0, 0, 1, 2, 3], &[]).is_err());
}

#[test]
fn test_recovery_skips_records_already_in_manifest() {
    let mut edit = VersionEdit::new();
    edit.last_sequence = Some(5);
    let manifest = encode_edit_record(&edit);
    let old = WalRecord { key: b"a".to_vec(), value: b"old".to_vec(), is_delete: false, seq_no: 4 };
    let new = WalRecord { key: b"b".to_vec(), value: b"new".to_vec(), is_delete: false, seq_no: 7 };
    let wal = encode_batch(&[old, new]);
    let core = EngineCore::recover(Options::default(), &manifest, &wal).unwrap();
    assert_eq!(core.get_from_memory(b"a"), None);
    assert_eq!(core.get_from_memory(b"b"), Some(Some(b"new".to_vec())));
    assert_eq!(core.last_sequence(), 7);
}

#[test]
fn test_recovery_keeps_records_before_a_torn_tail() {
    let r1 = WalRecord { key: b"k1".to_vec(), value: b"v1".to_vec(), is_delete: false, seq_no: 1 };
    let r2 = WalRecord { key: b"k2".to_vec(), value: b"v2".to_vec(), is_delete: false, seq_no: 2 };
    let mut wal = encode_batch(&[r1]);
    let second = encode_batch(&[r2]);
    wal.extend_from_slice(&second[..second.len() - 3]);
    let core = EngineCore::recover(Options::default(), &[], &wal).unwrap();
    assert_eq!(core.get_from_memory(b"k1"), Some(Some(b"v1".to_vec())));
    assert_eq!(core.get_from_memory(b"k2"), None);
    assert_eq!(core.last_sequence(), 1);
}

#[test]
fn test_basic_crud() {
    let mut db = fresh(Options::default());
    db.put(b"k1", b"v1");
    db.put(b"k2", b"v2");
    assert_eq!(db.get(b"k1"), Some(b"v1".to_vec()));
    assert_eq!(db.get(b"k2"), Some(b"v2".to_vec()));
    assert_eq!(db.get(b"k3"), None);
    db.put(b"k1", b"v1_updated");
    assert_eq!(db.get(b"k1"), Some(b"v1_updated".to_vec()));
    db.delete(b"k1");
    assert_eq!(db.get(b"k1"), None);
}

#[test]
fn test_flush_and_persistence() {
    let mut db = fresh(Options::default());
    db.put(b"persist_key", b"persist_val");
    db.flush();
    assert_eq!(db.get(b"persist_key"), Some(b"persist_val".to_vec()));
    db.put(b"persist_key", b"new_val");
    assert_eq!(db.get(b"persist_key"), Some(b"new_val".to_vec()));
    db.delete(b"persist_key");
    assert_eq!(db.get(b"persist_key"), None);
}

#[test]
fn test_write_batch() {
    let mut db = fresh(Options::default());
    let mut batch = WriteBatch::new();
    batch.put(b"b1".to_vec(), b"v1".to_vec());
    batch.put(b"b2".to_vec(), b"v2".to_vec());
    batch.delete(b"b1".to_vec());
    db.write_batch(&batch);
    assert_eq!(db.get(b"b1"), None);
    assert_eq!(db.get(b"b2"), Some(b"v2".to_vec()));
}

#[test]
fn test_crash_recovery_wal() {
    let mut db = fresh(Options::default());
    db.put(b"wal_k1", b"wal_v1");
    db.put(b"wal_k2", b"wal_v2");
    db.delete(b"wal_k1");
    db.put(b"wal_k3", b"wal_v3");
    let db = db.reopen();
    assert_eq!(db.get(b"wal_k1"), None);
    assert_eq!(db.get(b"wal_k2"), Some(b"wal_v2".to_vec()));
    assert_eq!(db.get(b"wal_k3"), Some(b"wal_v3".to_vec()));
}

#[test]
fn test_crash_recovery_manifest_and_sst() {
    let mut db = fresh(Options::default());
    db.put(b"sst_k1", b"sst_v1");
    db.put(b"sst_k2", b"sst_v2");
    db.flush();
    let db = db.reopen();
    assert_eq!(db.get(b"sst_k1"), Some(b"sst_v1".to_vec()));
    assert_eq!(db.get(b"sst_k2"), Some(b"sst_v2".to_vec()));
    assert_eq!(db.get(b"sst_k3"), None);
    assert!(db.core.stats().levels_file_count[0] >= 1);
}

#[test]
fn test_crash_recovery_mixed_wal_and_sst() {
    let mut db = fresh(Options::default());
    db.put(b"k1", b"v1_old");
    db.put(b"k2", b"v2");
    db.flush();
    db.put(b"k1", b"v1_new");
    db.delete(b"k2");
    db.put(b"k3", b"v3");
    let db = db.reopen();
    assert_eq!(db.get(b"k1"), Some(b"v1_new".to_vec()));
    assert_eq!(db.get(b"k2"), None);
    assert_eq!(db.get(b"k3"), Some(b"v3".to_vec()));
}

#[test]
fn test_auto_flush_on_size_threshold() {
    let mut db = fresh(OptionsBuilder::new().memtable_size(256).build());
    for i in 0..50 {
        let key = format!("auto_key_{:04}", i);
        let val = format!("auto_value_{:08}", i);
        db.put(key.as_bytes(), val.as_bytes());
    }
    assert!(db.core.stats().levels_file_count[0] > 0);
    for i in 0..50 {
        let key = format!("auto_key_{:04}", i);
        let expected_val = format!("auto_value_{:08}", i);
        assert_eq!(db.get(key.as_bytes()), Some(expected_val.into_bytes()));
    }
}

#[test]
fn test_range_scan() {
    let mut db = fresh(Options::default());
    db.put(b"a", b"1");
    db.put(b"b", b"2");
    db.put(b"c", b"3");
    db.flush();
    db.delete(b"b");
    db.put(b"d", b"4");
    db.put(b"e", b"5");
    let all = db.scan(None, None);
    assert_eq!(
        all,
        vec![
            (b"a".to_vec(), b"1".to_vec()),
            (b"c".to_vec(), b"3".to_vec()),
            (b"d".to_vec(), b"4".to_vec()),
            (b"e".to_vec(), b"5".to_vec()),
        ]
    );
    let bounded = db.scan(Some(b"c"), Some(b"e"));
    assert_eq!(bounded, vec![(b"c".to_vec(), b"3".to_vec()), (b"d".to_vec(), b"4".to_vec())]);
}

#[test]
fn test_multi_version_overwrites() {
    let mut db = fresh(Options::default());
    for v in 0..10 {
        let val = format!("v_{}", v);
        db.put(b"multi_key", val.as_bytes());
        if v % 3 == 0 {
            db.flush();
        }
    }
    assert_eq!(db.get(b"multi_key"), Some(b"v_9".to_vec()));
    let scan_res = db.scan(None, None);
    assert_eq!(scan_res.len(), 1);
    assert_eq!(scan_res[0].1, b"v_9".to_vec());
}

#[test]
fn test_subsystems_compaction_pipeline() {
    let mut db = fresh(OptionsBuilder::new().block_size(64).build());
    for batch_idx in 0..4 {
        for item_idx in 0..10 {
            let key = format!("k_{:02}_{:02}", batch_idx, item_idx);
            let val = format!("val_{:02}_{:02}", batch_idx, item_idx);
            db.put(key.as_bytes(), val.as_bytes());
        }
        db.flush();
    }
    let stats_before = db.core.stats();
    assert_eq!(stats_before.levels_file_count[0], 4);
    assert_eq!(stats_before.levels_file_count[1], 0);
    db.compact();
    let stats_after = db.core.stats();
    assert_eq!(stats_after.levels_file_count[0], 0);
    assert_eq!(stats_after.levels_file_count[1], 1);
    for batch_idx in 0..4 {
        for item_idx in 0..10 {
            let key = format!("k_{:02}_{:02}", batch_idx, item_idx);
            let expected = format!("val_{:02}_{:02}", batch_idx, item_idx);
            assert_eq!(db.get(key.as_bytes()), Some(expected.into_bytes()));
        }
    }
}

#[test]
fn test_large_keys_and_values() {
    let mut db = fresh(OptionsBuilder::new().block_size(256).build());
    let large_value = vec![b'x'; 16 * 1024];
    let key = b"large_payload_key";
    db.put(key, &large_value);
    assert_eq!(db.get(key), Some(large_value.clone()));
    db.flush();
    assert_eq!(db.get(key), Some(large_value.clone()));
}

#[test]
fn test_empty_values_vs_tombstones() {
    let mut db = fresh(Options::default());
    db.put(b"empty_val_key", b"");
    assert_eq!(db.get(b"empty_val_key"), Some(Vec::new()));
    db.flush();
    assert_eq!(db.get(b"empty_val_key"), Some(Vec::new()));
    db.delete(b"empty_val_key");
    assert_eq!(db.get(b"empty_val_key"), None);
    db.flush();
    assert_eq!(db.get(b"empty_val_key"), None);
}

#[test]
fn test_range_scan_edge_cases() {
    let mut db = fresh(Options::default());
    db.put(b"k10", b"v10");
    db.put(b"k20", b"v20");
    db.put(b"k30", b"v30");
    db.flush();
    assert!(db.scan(Some(b"k30"), Some(b"k10")).is_empty());
    assert!(db.scan(Some(b"k00"), Some(b"k05")).is_empty());
    assert!(db.scan(Some(b"k40"), Some(b"k50")).is_empty());
    let single = db.scan(Some(b"k20"), Some(b"k21"));
    assert_eq!(single.len(), 1);
    assert_eq!(single[0].0, b"k20".to_vec());
}

#[test]
fn test_interleaved_flushes_deletions_compaction() {
    let mut db = fresh(OptionsBuilder::new().block_size(64).build());
    for i in 0..20 {
        db.put(format!("k_{:03}", i).as_bytes(), format!("val_{:03}", i).as_bytes());
    }
    db.flush();
    for i in 0..20 {
        if i % 2 == 0 {
            db.put(format!("k_{:03}", i).as_bytes(), format!("val_updated_{:03}", i).as_bytes());
        } else {
            db.delete(format!("k_{:03}", i).as_bytes());
        }
    }
    db.flush();
    for i in 20..30 {
        db.put(format!("k_{:03}", i).as_bytes(), format!("val_{:03}", i).as_bytes());
    }
    db.flush();
    db.compact();
    for i in 0..20 {
        if i % 2 == 0 {
            assert_eq!(db.get(format!("k_{:03}", i).as_bytes()), Some(format!("val_updated_{:03}", i).into_bytes()));
        } else {
            assert_eq!(db.get(format!("k_{:03}", i).as_bytes()), None);
        }
    }
    for i in 20..30 {
        assert_eq!(db.get(format!("k_{:03}", i).as_bytes()), Some(format!("val_{:03}", i).into_bytes()));
    }
}

#[test]
fn test_scan_agrees_with_get() {
    let mut db = fresh(Options::default());
    for i in 0..6 {
        db.put(format!("k{}", i).as_bytes(), format!("v{}", i).as_bytes());
    }
    db.flush();
    db.put(b"k1", b"new1");
    db.delete(b"k2");
    db.flush();
    db.put(b"k3", b"new3");
    db.delete(b"k4");
    let scanned = db.scan(None, None);
    for i in 0..7 {
        let k = format!("k{}", i).into_bytes();
        let in_scan = scanned.iter().find(|p| p.0 == k).map(|p| p.1.clone());
        assert_eq!(in_scan, db.get(&k));
    }
    assert_eq!(db.get(b"k1"), Some(b"new1".to_vec()));
    assert_eq!(db.get(b"k2"), None);
}
