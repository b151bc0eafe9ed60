use flash_store::batch::WriteBatch;
use flash_store::config::{Options, OptionsBuilder};
use flash_store::iterator::{MergingIterator, SSTableIterator, StorageIterator};
use flash_store::memtable::MemTable;
use flash_store::sstable::block::Block;
use flash_store::sstable::bloom::BloomFilter;
use flash_store::sstable::builder::TableBuilder;
use flash_store::sstable::footer::Footer;
use flash_store::sstable::naming::{table_file_name, table_path};
use flash_store::sstable::reader::TableReader;
use flash_store::types::{Entry, ValueType};
use flash_store::wal::log::{decode_log, encode_batch};
use flash_store::wal::record::WalRecord;

fn entry(k: &[u8], v: &[u8], seq: u64) -> Entry {
    Entry::new_value(k.to_vec(), v.to_vec(), seq)
}

#[test]
fn test_sstable_iterator() {
    let entries = vec![entry(b"k1", b"v1", 1), entry(b"k2", b"v2", 2)];
    let mut iter = SSTableIterator::new(entries);
    assert!(iter.valid());
    assert_eq!(iter.key(), &b"k1".to_vec());
    assert_eq!(iter.value(), &b"v1".to_vec());
    iter.next().unwrap();
    assert!(iter.valid());
    assert_eq!(iter.key(), &b"k2".to_vec());
    iter.next().unwrap();
    assert!(!iter.valid());
}

#[test]
fn test_merging_iterator_dedup() {
    let iter1 = SSTableIterator::new(vec![entry(b"a", b"v_a_1", 1), entry(b"c", b"v_c_1", 1)]);
    let iter2 = SSTableIterator::new(vec![entry(b"a", b"v_a_2", 2), entry(b"b", b"v_b_2", 2)]);
    let mut merger = MergingIterator::new(vec![iter1, iter2]);
    let mut results = Vec::new();
    while merger.valid() {
        results.push((merger.key().clone(), merger.value().clone()));
        merger.next().unwrap();
    }
    assert_eq!(results.len(), 3);
    assert_eq!(results[0].0, b"a".to_vec());
    assert_eq!(results[1].0, b"b".to_vec());
    assert_eq!(results[2].0, b"c".to_vec());
}

#[test]
fn test_subsystems_merging_iterator_integration() {
    let iter1 = SSTableIterator::new(vec![entry(b"apple", b"10", 1), entry(b"cherry", b"30", 1)]);
    let iter2 = SSTableIterator::new(vec![entry(b"banana", b"20", 2), entry(b"date", b"40", 2)]);
    let mut merger = MergingIterator::new(vec![iter1, iter2]);
    let mut collected = Vec::new();
    while merger.valid() {
        collected.push((merger.key().clone(), merger.value().clone()));
        merger.next().unwrap();
    }
    assert_eq!(collected.len(), 4);
    assert_eq!(collected[0].0, b"apple".to_vec());
    assert_eq!(collected[1].0, b"banana".to_vec());
    assert_eq!(collected[2].0, b"cherry".to_vec());
    assert_eq!(collected[3].0, b"date".to_vec());
}

#[test]
fn test_merging_iterator_first_source_wins_on_equal_keys() {
    let newer = SSTableIterator::new(vec![entry(b"k", b"new", 9)]);
    let older = SSTableIterator::new(vec![entry(b"k", b"old", 1)]);
    let mut merger = MergingIterator::new(vec![newer, older]);
    assert!(merger.valid());
    assert_eq!(merger.value(), &b"new".to_vec());
    merger.next().unwrap();
    assert!(!merger.valid());
}

#[test]
fn test_memtable_crud_and_size() {
    let mut mem = MemTable::new(1);
    assert_eq!(mem.id(), 1);
    assert!(mem.is_empty());
    assert_eq!(mem.len(), 0);
    assert_eq!(mem.approximate_size(), 0);

    mem.put(b"k1".to_vec(), b"v1".to_vec(), 100);
    assert!(!mem.is_empty());
    assert_eq!(mem.len(), 1);
    assert!(mem.approximate_size() > 0);
    assert_eq!(mem.get(b"k1"), Some(Some(b"v1".to_vec())));

    assert_eq!(mem.get(b"k_missing"), None);

    mem.delete(b"k1".to_vec(), 101);
    assert_eq!(mem.get(b"k1"), Some(None));

    mem.put(b"k1".to_vec(), b"v1_new".to_vec(), 102);
    assert_eq!(mem.get(b"k1"), Some(Some(b"v1_new".to_vec())));

    let size_before = mem.approximate_size();
    mem.put(b"k1".to_vec(), b"v1_alt".to_vec(), 103);
    assert_eq!(mem.get(b"k1"), Some(Some(b"v1_alt".to_vec())));
    assert_eq!(mem.approximate_size(), size_before);
}

#[test]
fn test_memtable_iteration() {
    let mut mem = MemTable::new(2);
    mem.put(b"z".to_vec(), b"26".to_vec(), 1);
    mem.put(b"a".to_vec(), b"1".to_vec(), 2);
    mem.put(b"m".to_vec(), b"13".to_vec(), 3);
    let mut iter = mem.iter();
    let mut keys = Vec::new();
    while iter.valid() {
        if let Some(e) = iter.item() {
            keys.push(e.key.clone());
        }
        iter.next();
    }
    assert_eq!(keys, vec![b"a".to_vec(), b"m".to_vec(), b"z".to_vec()]);
}

#[test]
fn test_memtable_size_is_sum_of_entry_sizes() {
    let mut mem = MemTable::new(0);
    mem.put(b"abc".to_vec(), b"12345".to_vec(), 1);
    assert_eq!(mem.approximate_size(), 3 + 5 + 9);
    mem.delete(b"xy".to_vec(), 2);
    assert_eq!(mem.approximate_size(), 3 + 5 + 9 + 2 + 9);
    mem.put(b"abc".to_vec(), b"1".to_vec(), 3);
    assert_eq!(mem.approximate_size(), 3 + 1 + 9 + 2 + 9);
}

#[test]
fn test_block_encode_decode() {
    let entries = vec![entry(b"k1", b"v1", 1), entry(b"k2", b"v2", 2), Entry::new_tombstone(b"k3".to_vec(), 3)];
    let encoded = Block::encode(&entries);
    let block = Block::decode(&encoded).expect("decode block");
    assert_eq!(block.entries_len(), 3);
    assert_eq!(block.get_entry(0), Some(entries[0].clone()));
    assert_eq!(block.get_entry(1), Some(entries[1].clone()));
    assert_eq!(block.get_entry(2), Some(entries[2].clone()));
    assert_eq!(block.get_entry(3), None);
}

#[test]
fn test_block_layout_length() {
    // Each entry is framed by a 4-byte length, its bincode body is key + value + 28
    // bytes, and every entry has a 4-byte offset; the count takes 4 more bytes.
    let entries = vec![entry(b"ab", b"xyz", 1)];
    let encoded = Block::encode(&entries);
    assert_eq!(encoded.len(), (4 + 2 + 3 + 28) + 4 + 4);
    assert!(Block::decode(&[1, 2]).is_err());
}

#[test]
fn test_bloom_filter_basic() {
    let bloom = BloomFilter::new(10);
    let keys = vec![b"apple".to_vec(), b"banana".to_vec(), b"cherry".to_vec()];
    let filter = bloom.build_from_keys(&keys);
    assert!(BloomFilter::may_contain(&filter, b"apple"));
    assert!(BloomFilter::may_contain(&filter, b"banana"));
    assert!(BloomFilter::may_contain(&filter, b"cherry"));
    let _ = BloomFilter::may_contain(&filter, b"durian");
}

#[test]
fn test_bloom_filter_empty() {
    let bloom = BloomFilter::new(10);
    let filter = bloom.build_from_keys(&[]);
    assert_eq!(filter.len(), 0);
    assert!(BloomFilter::may_contain(&filter, b"any_key"));
}

#[test]
fn test_bloom_filter_sizing() {
    // 3 keys at 10 bits each round up to the 64-bit minimum: 8 bytes plus the probe count.
    let bloom = BloomFilter::new(10);
    let filter = bloom.build_from_keys(&[b"a".to_vec(), b"b".to_vec(), b"c".to_vec()]);
    assert_eq!(filter.len(), 9);
    assert_eq!(filter[8], 7);
}

#[test]
fn test_footer_round_trip() {
    let f = Footer::new(10, 20, 30, 40);
    let bytes = f.encode();
    assert_eq!(bytes.len(), 48);
    let d = Footer::decode(&bytes).unwrap();
    assert_eq!(d, f);
    let mut bad = bytes.clone();
    bad[47] ^= 0xff;
    assert!(Footer::decode(&bad).is_err());
}

#[test]
fn test_table_builder_and_reader() {
    let options = OptionsBuilder::new().block_size(64).build();
    let mut builder = TableBuilder::new(options);
    let mut expected = Vec::new();
    for i in 0..30u64 {
        let k = format!("key_{:03}", i).into_bytes();
        let v = format!("value_{}", i).into_bytes();
        let e = if i % 5 == 0 { Entry::new_tombstone(k.clone(), i) } else { Entry::new_value(k.clone(), v.clone(), i) };
        expected.push(e.clone());
        builder.add(e).unwrap();
    }
    let image = builder.finish();
    let reader = TableReader::open(image).unwrap();
    assert!(reader.check());
    let all = reader.read_all_entries().unwrap();
    assert_eq!(all, expected);
    assert_eq!(reader.get(b"key_007").unwrap(), Some(Some(b"value_7".to_vec())));
    assert_eq!(reader.get(b"key_010").unwrap(), Some(None));
    assert_eq!(reader.get(b"key_999").unwrap(), None);
    assert!(TableReader::open(vec![0u8; 10]).is_err());
}

#[test]
fn test_table_file_names() {
    assert_eq!(table_file_name(7), "000007.sst");
    assert_eq!(table_file_name(0), "000000.sst");
    assert_eq!(table_file_name(1234567), "1234567.sst");
    assert_eq!(table_path("/tmp/db", 42), "/tmp/db/000042.sst");
    assert_eq!(table_path("/tmp/db/", 42), "/tmp/db/000042.sst");
    assert_eq!(table_path("", 1), "000001.sst");
}

#[test]
fn test_wal_records_round_trip() {
    let r1 = WalRecord { key: b"k1".to_vec(), value: b"v1".to_vec(), is_delete: false, seq_no: 1 };
    let r2 = WalRecord { key: b"k2".to_vec(), value: b"v2".to_vec(), is_delete: false, seq_no: 2 };
    let r3 = WalRecord { key: b"k1".to_vec(), value: Vec::new(), is_delete: true, seq_no: 3 };
    let mut log = encode_batch(&[r1.clone()]);
    log.extend(encode_batch(&[r2.clone(), r3.clone()]));
    let records = decode_log(&log);
    assert_eq!(records.len(), 3);
    assert_eq!(records[0].key, r1.key);
    assert_eq!(records[0].seq_no, 1);
    assert_eq!(records[1].key, r2.key);
    assert_eq!(records[2].key, r3.key);
    assert!(records[2].is_delete);

    // A torn trailing frame is ignored; earlier frames are kept.
    let mut torn = log.clone();
    torn.truncate(log.len() - 3);
    assert_eq!(decode_log(&torn).len(), 2);

    // A damaged checksum stops recovery at that frame.
    let frame = r1.encode();
    let mut damaged = frame.clone();
    damaged[0] ^= 1;
    assert!(WalRecord::decode(&damaged).is_err());
    assert_eq!(WalRecord::decode(&frame).unwrap().key, b"k1".to_vec());
    assert_eq!(frame.len(), 8 + 2 + 2 + 25);
}

#[test]
fn test_write_batch_ops() {
    let mut b = WriteBatch::new();
    assert!(b.is_empty());
    b.put(b"a".to_vec(), b"1".to_vec());
    b.delete(b"b".to_vec());
    assert_eq!(b.len(), 2);
    b.clear();
    assert_eq!(b.len(), 0);
}

#[test]
fn test_entry_helpers() {
    let e = entry(b"key", b"val", 5);
    assert!(!e.is_tombstone());
    assert_eq!(e.estimated_size(), 3 + 3 + 9);
    let t = Entry::new_tombstone(b"key".to_vec(), 6);
    assert!(t.is_tombstone());
    assert_eq!(t.value_type, ValueType::Tombstone);
    assert_eq!(t.value.len(), 0);
}

#[test]
fn test_default_options() {
    let o = Options::default();
    assert_eq!(o.dir, "./data");
    assert_eq!(o.memtable_size, 4 * 1024 * 1024);
    assert_eq!(o.block_size, 4096);
    assert_eq!(o.bloom_bits_per_key, 10);
    assert_eq!(o.max_levels, 7);
    let b = OptionsBuilder::new().memtable_size(1024).sync_wal(true).max_levels(3).build();
    assert_eq!(b.memtable_size, 1024);
    assert!(b.sync_wal);
    assert_eq!(b.max_levels, 3);
}

#[test]
fn test_bloom_filter_exact_bits_and_length() {
    let keys: Vec<Vec<u8>> = (0..10).map(|i| format!("key_{}", i).into_bytes()).collect();
    let filter = BloomFilter::new(10).build_from_keys(&keys);
    // 10 keys at 10 bits: 100 bits, 13 bytes, then the probe count.
    assert_eq!(filter.len(), 14);
    let num_bits = 13u32 * 8;
    let mut expected = vec![0u8; 13];
    for key in &keys {
        let h0 = crc32fast::hash(key);
        let delta = h0.rotate_right(17);
        let mut h = h0;
        for _ in 0..7 {
            let pos = (h % num_bits) as usize;
            expected[pos / 8] |= 1 << (pos % 8);
            h = h.wrapping_add(delta);
        }
    }
    expected.push(7);
    assert_eq!(filter, expected);
    // No bits per key: the 64-bit minimum, and a single probe.
    let small = BloomFilter::new(0).build_from_keys(&keys);
    assert_eq!(small.len(), 9);
    assert_eq!(small[8], 1);
    assert_eq!(BloomFilter::new(100).build_from_keys(&keys).last(), Some(&30));
}

#[test]
fn test_block_round_trip_law() {
    let es = vec![
        Entry::new_value(b"k1".to_vec(), b"v1".to_vec(), 1),
        Entry::new_value(b"k2".to_vec(), b"v2".to_vec(), 2),
        Entry::new_tombstone(b"k3".to_vec(), 3),
    ];
    let block = Block::decode(&Block::encode(&es)).unwrap();
    assert_eq!(block.entries_len(), 3);
    for (i, e) in es.iter().enumerate() {
        let got = block.get_entry(i).unwrap();
        assert_eq!((got.key, got.value, got.value_type, got.seq_no), (e.key.clone(), e.value.clone(), e.value_type, e.seq_no));
    }
    assert!(block.get_entry(3).is_none());
}
