//! Reading a table image: footer, Bloom filter, index, then blocks on demand.
use vstd::prelude::*;
use vstd::slice::*;
use crate::error::FlashStoreError;
use crate::keys::{lex_lt, lex_le, key_lt, key_eq};
use crate::sstable::block::{Block, EntryView, entry_view, block_shape_ok, block_slots_ok, block_entry,
    block_count, block_region_end, block_offset, slot_ok, entry_at};
use crate::sstable::bloom::{BloomFilter, filter_admits, filter_probeable};
use crate::sstable::footer::{Footer, footer_decode};
use crate::types::{Entry, ValueType};
use crate::wire::{bincode_index_parse, deserialize_index, key_views};

verus! {

/// The footer stored in the last 48 bytes of a table image.
pub open spec fn table_footer(t: Seq<u8>) -> Option<Footer> {
    if t.len() < 48 {
        None
    } else {
        footer_decode(t.subrange(t.len() - 48, t.len() as int))
    }
}

pub open spec fn range_in(t: Seq<u8>, off: u64, size: u64) -> bool {
    off + size <= t.len()
}

pub open spec fn slice_of(t: Seq<u8>, off: u64, size: u64) -> Seq<u8> {
    t.subrange(off as int, off + size)
}

/// A table image opens: footer, filter block and index block are all present and
/// the index reads.
pub open spec fn table_opens(t: Seq<u8>) -> bool {
    match table_footer(t) {
        Some(f) => range_in(t, f.meta_index_offset, f.meta_index_size)
            && range_in(t, f.index_offset, f.index_size)
            && bincode_index_parse(slice_of(t, f.index_offset, f.index_size)) is Some,
        None => false,
    }
}

/// Entries `0..j` of an encoded block that read back, in order.
pub open spec fn block_entries_upto(data: Seq<u8>, j: int) -> Seq<EntryView>
    decreases j,
{
    if j <= 0 {
        Seq::empty()
    } else {
        let prev = block_entries_upto(data, j - 1);
        match block_entry(data, j - 1) {
            Some(e) => prev.push(e),
            None => prev,
        }
    }
}

pub open spec fn block_entries(data: Seq<u8>) -> Seq<EntryView> {
    block_entries_upto(data, block_count(data))
}

/// First entry carrying `key`, if any.
pub open spec fn first_with_key(es: Seq<EntryView>, key: Seq<u8>) -> Option<EntryView>
    decreases es.len(),
{
    if es.len() == 0 {
        None
    } else if es[0].0 == key {
        Some(es[0])
    } else {
        first_with_key(es.drop_first(), key)
    }
}

/// The answer a table gives for a key found in it: the value, or `None` for a deletion.
pub open spec fn lookup_answer(e: Option<EntryView>) -> Option<Option<Seq<u8>>> {
    match e {
        Some(e) => if e.2 == ValueType::Tombstone { Some(None) } else { Some(Some(e.1)) },
        None => None,
    }
}

pub open spec fn answer_view(a: Option<Option<Vec<u8>>>) -> Option<Option<Seq<u8>>> {
    match a {
        Some(Some(v)) => Some(Some(v@)),
        Some(None) => Some(None),
        None => None,
    }
}

pub open spec fn strictly_sorted(ks: Seq<Seq<u8>>) -> bool {
    forall|i: int, j: int| 0 <= i < j < ks.len() ==> lex_lt(#[trigger] ks[i], #[trigger] ks[j])
}

/// `p` splits sorted first keys into those at or below `key` and those above it.
pub open spec fn split_point(ks: Seq<Seq<u8>>, key: Seq<u8>, p: int) -> bool {
    &&& 0 <= p <= ks.len()
    &&& forall|i: int| 0 <= i < p ==> lex_le(#[trigger] ks[i], key)
    &&& forall|i: int| p <= i < ks.len() ==> lex_lt(key, #[trigger] ks[i])
}

/// Index of the block that may hold `key`: the last block whose first key is at
/// or below `key`, or the first block.
pub open spec fn block_for(p: int) -> int {
    if p == 0 { 0 } else { p - 1 }
}

/// A table image opened for reading.
pub struct TableReader {
    pub data: Vec<u8>,
    pub footer: Footer,
    pub first_keys: Vec<Vec<u8>>,
    pub block_offsets: Vec<u64>,
    pub bloom_filter: Vec<u8>,
}

/// End of block `i` given the block offsets and the filter offset.
pub open spec fn tbl_block_end(offs: Seq<u64>, mio: u64, i: int) -> int {
    if i + 1 < offs.len() {
        offs[i + 1] as int
    } else {
        mio as int
    }
}

pub open spec fn tbl_block_bytes(t: Seq<u8>, offs: Seq<u64>, mio: u64, i: int) -> Seq<u8> {
    t.subrange(offs[i] as int, tbl_block_end(offs, mio, i))
}

/// Block `i` can be read without a fault: its bounds are ordered, and when it
/// lies inside the image with at least four bytes, its offsets and slots fit.
pub open spec fn tbl_block_readable(t: Seq<u8>, offs: Seq<u64>, mio: u64, i: int) -> bool {
    &&& offs[i] as int <= tbl_block_end(offs, mio, i)
    &&& (tbl_block_end(offs, mio, i) <= t.len() && tbl_block_end(offs, mio, i) - offs[i] >= 4)
        ==> (block_shape_ok(tbl_block_bytes(t, offs, mio, i)) && block_slots_ok(tbl_block_bytes(t, offs, mio, i)))
}

/// What reading block `i` gives: its entries, or `None` when it lies past the
/// end of the image or holds fewer than four bytes.
pub open spec fn tbl_block_read(t: Seq<u8>, offs: Seq<u64>, mio: u64, i: int) -> Option<Seq<EntryView>> {
    if tbl_block_end(offs, mio, i) > t.len() || tbl_block_end(offs, mio, i) - offs[i] < 4 {
        None
    } else {
        Some(block_entries(tbl_block_bytes(t, offs, mio, i)))
    }
}

/// Entries of blocks `0..i` in order, or `None` at the first unreadable block.
pub open spec fn tbl_scan_upto(t: Seq<u8>, offs: Seq<u64>, mio: u64, i: int) -> Option<Seq<EntryView>>
    decreases i,
{
    if i <= 0 {
        Some(Seq::empty())
    } else {
        match (tbl_scan_upto(t, offs, mio, i - 1), tbl_block_read(t, offs, mio, i - 1)) {
            (Some(prev), Some(b)) => Some(prev + b),
            _ => None,
        }
    }
}

pub open spec fn tbl_index(t: Seq<u8>) -> (Seq<Seq<u8>>, Seq<u64>) {
    let f = table_footer(t)->0;
    bincode_index_parse(slice_of(t, f.index_offset, f.index_size))->0
}

pub open spec fn tbl_filter(t: Seq<u8>) -> Seq<u8> {
    let f = table_footer(t)->0;
    slice_of(t, f.meta_index_offset, f.meta_index_size)
}

/// A table image opens and all its blocks read without a fault.
pub open spec fn table_wf(t: Seq<u8>) -> bool {
    &&& table_opens(t)
    &&& filter_probeable(tbl_filter(t))
    &&& forall|i: int| 0 <= i < tbl_index(t).1.len() ==> #[trigger] tbl_block_readable(t, tbl_index(t).1, table_footer(t)->0.meta_index_offset, i)
}

/// All entries of a table image, block after block.
pub open spec fn table_contents(t: Seq<u8>) -> Option<Seq<EntryView>> {
    if table_opens(t) {
        let offs = tbl_index(t).1;
        tbl_scan_upto(t, offs, table_footer(t)->0.meta_index_offset, offs.len() as int)
    } else {
        None
    }
}

/// Entries of table images, one image after the other.
pub open spec fn tables_entries(ts: Seq<Seq<u8>>) -> Seq<EntryView>
    decreases ts.len(),
{
    if ts.len() == 0 {
        Seq::empty()
    } else {
        tables_entries(ts.drop_last()) + table_contents(ts.last())->0
    }
}

pub open spec fn images(ts: Seq<Vec<u8>>) -> Seq<Seq<u8>> {
    ts.map_values(|t: Vec<u8>| t@)
}

impl TableReader {
    pub open spec fn n_blocks(self) -> int {
        self.block_offsets@.len() as int
    }

    pub open spec fn block_start(self, i: int) -> int {
        self.block_offsets@[i] as int
    }

    pub open spec fn block_end(self, i: int) -> int {
        tbl_block_end(self.block_offsets@, self.footer.meta_index_offset, i)
    }

    pub open spec fn block_bytes(self, i: int) -> Seq<u8> {
        tbl_block_bytes(self.data@, self.block_offsets@, self.footer.meta_index_offset, i)
    }

    pub open spec fn block_readable(self, i: int) -> bool {
        tbl_block_readable(self.data@, self.block_offsets@, self.footer.meta_index_offset, i)
    }

    pub open spec fn wf(self) -> bool {
        &&& filter_probeable(self.bloom_filter@)
        &&& forall|i: int| 0 <= i < self.n_blocks() ==> #[trigger] self.block_readable(i)
    }

    pub open spec fn block_read(self, i: int) -> Option<Seq<EntryView>> {
        tbl_block_read(self.data@, self.block_offsets@, self.footer.meta_index_offset, i)
    }

    pub open spec fn scan_upto(self, i: int) -> Option<Seq<EntryView>> {
        tbl_scan_upto(self.data@, self.block_offsets@, self.footer.meta_index_offset, i)
    }

    pub open spec fn table_scan(self) -> Option<Seq<EntryView>> {
        self.scan_upto(self.n_blocks())
    }

    /// Opens a table image: a short image or a bad footer is corruption, a filter or
    /// index block past the end is an I/O error, an unreadable index is corruption.
    pub fn open(data: Vec<u8>) -> (r: Result<TableReader, FlashStoreError>)
        ensures
            r is Ok <==> table_opens(data@),
            data@.len() < 48 ==> r matches Err(FlashStoreError::Corruption(_)),
            r matches Ok(t) ==> {
                let f = table_footer(data@)->0;
                &&& t.data@ == data@
                &&& t.footer == f
                &&& t.bloom_filter@ == slice_of(data@, f.meta_index_offset, f.meta_index_size)
                &&& bincode_index_parse(slice_of(data@, f.index_offset, f.index_size))
                    == Some((key_views(t.first_keys@), t.block_offsets@))
            },
    {
        let len = data.len();
        if len < 48 {
            return Err(FlashStoreError::Corruption(String::from_str("file size too small")));
        }
        let footer = match Footer::decode(slice_subrange(data.as_slice(), len - 48, len)) {
            Ok(f) => f,
            Err(e) => return Err(e),
        };
        if footer.meta_index_offset > len as u64 || footer.meta_index_size > len as u64 - footer.meta_index_offset {
            return Err(FlashStoreError::Io(String::from_str("failed to fill whole buffer")));
        }
        let bloom_filter = slice_to_vec(slice_subrange(data.as_slice(), footer.meta_index_offset as usize,
            (footer.meta_index_offset + footer.meta_index_size) as usize));
        if footer.index_offset > len as u64 || footer.index_size > len as u64 - footer.index_offset {
            return Err(FlashStoreError::Io(String::from_str("failed to fill whole buffer")));
        }
        let index_bytes = slice_subrange(data.as_slice(), footer.index_offset as usize,
            (footer.index_offset + footer.index_size) as usize);
        match deserialize_index(index_bytes) {
            Ok(t) => {
                let (first_keys, block_offsets) = t;
                Ok(TableReader { data, footer, first_keys, block_offsets, bloom_filter })
            },
            Err(msg) => Err(FlashStoreError::Corruption(msg)),
        }
    }

    /// Checks `wf`: the filter can be probed and every block can be read without a fault.
    pub fn check(&self) -> (r: bool)
        ensures
            r == self.wf(),
    {
        if self.bloom_filter.len() > 1 {
            let bl = self.bloom_filter.len() - 1;
            if bl > usize::MAX / 8 {
                return false;
            }
            #[verifier::truncate]
            let nb: u32 = (bl * 8) as u32;
            if nb == 0 {
                return false;
            }
        }
        let n = self.block_offsets.len();
        let mut i: usize = 0;
        while i < n
            invariant
                n == self.n_blocks(),
                i <= n,
                filter_probeable(self.bloom_filter@),
                forall|j: int| 0 <= j < i ==> #[trigger] self.block_readable(j),
            decreases n - i,
        {
            let start = self.block_offsets[i];
            let end = if i + 1 < n { self.block_offsets[i + 1] } else { self.footer.meta_index_offset };
            if start > end {
                assert(!self.block_readable(i as int));
                return false;
            }
            if end <= self.data.len() as u64 && end - start >= 4 {
                let bytes = slice_subrange(self.data.as_slice(), start as usize, end as usize);
                assert(bytes@ == self.block_bytes(i as int));
                if !block_bytes_ok(bytes) {
                    assert(!self.block_readable(i as int));
                    return false;
                }
            }
            i = i + 1;
        }
        true
    }

    /// Reads and decodes block `index`.
    pub fn read_block(&self, index: usize) -> (r: Result<Block, FlashStoreError>)
        requires
            self.wf(),
            index < self.n_blocks(),
        ensures
            r is Ok <==> self.block_read(index as int) is Some,
            self.block_end(index as int) > self.data@.len() ==> r matches Err(FlashStoreError::Io(_)),
            r matches Ok(b) ==> {
                &&& b.slots_ok()
                &&& b.offsets@.len() == block_count(self.block_bytes(index as int))
                &&& forall|j: int| 0 <= j < b.offsets@.len() ==>
                    #[trigger] entry_at(b.data@, b.offsets@[j] as int) == block_entry(self.block_bytes(index as int), j)
            },
    {
        assert(self.block_readable(index as int));
        let n = self.block_offsets.len();
        let start = self.block_offsets[index];
        let end = if index + 1 < n { self.block_offsets[index + 1] } else { self.footer.meta_index_offset };
        if end > self.data.len() as u64 {
            return Err(FlashStoreError::Io(String::from_str("failed to fill whole buffer")));
        }
        let bytes = slice_subrange(self.data.as_slice(), start as usize, end as usize);
        let ghost bb = self.block_bytes(index as int);
        assert(bytes@ == bb);
        match Block::decode(bytes) {
            Ok(b) => {
                proof {
                    assert forall|j: int| 0 <= j < b.offsets@.len() implies #[trigger] slot_ok(b.data@, b.offsets@[j] as int) by {
                        assert(slot_ok(bb.subrange(0, block_region_end(bb)), block_offset(bb, j)));
                    }
                }
                Ok(b)
            },
            Err(e) => Err(e),
        }
    }

    /// Reads every entry of every block in order; stops with the error of the first
    /// block that cannot be read.
    pub fn read_all_entries(&self) -> (r: Result<Vec<Entry>, FlashStoreError>)
        requires
            self.wf(),
        ensures
            r is Ok <==> self.table_scan() is Some,
            r matches Ok(es) ==> Some(es@.map_values(|e: Entry| entry_view(e))) == self.table_scan(),
    {
        let mut entries: Vec<Entry> = Vec::new();
        let n = self.block_offsets.len();
        let mut idx: usize = 0;
        while idx < n
            invariant
                self.wf(),
                n == self.n_blocks(),
                idx <= n,
                self.scan_upto(idx as int) == Some(entries@.map_values(|e: Entry| entry_view(e))),
            decreases n - idx,
        {
            let block = match self.read_block(idx) {
                Ok(b) => b,
                Err(e) => {
                    proof { lemma_scan_none_after(*self, idx as int + 1, n as int); }
                    return Err(e);
                },
            };
            let ghost bb = self.block_bytes(idx as int);
            let ghost before = entries@.map_values(|e: Entry| entry_view(e));
            let m = block.entries_len();
            let mut i: usize = 0;
            while i < m
                invariant
                    m == block.offsets@.len(),
                    m == block_count(bb),
                    block.slots_ok(),
                    forall|j: int| 0 <= j < m ==> #[trigger] entry_at(block.data@, block.offsets@[j] as int) == block_entry(bb, j),
                    i <= m,
                    entries@.map_values(|e: Entry| entry_view(e)) == before + block_entries_upto(bb, i as int),
                decreases m - i,
            {
                assert(slot_ok(block.data@, block.offsets@[i as int] as int));
                match block.get_entry(i) {
                    Some(e) => {
                        let ghost ev = entry_view(e);
                        let ghost old_es = entries@;
                        entries.push(e);
                        assert(entries@.map_values(|e: Entry| entry_view(e)) =~= old_es.map_values(|e: Entry| entry_view(e)).push(ev));
                        assert(before + block_entries_upto(bb, i + 1) =~= (before + block_entries_upto(bb, i as int)).push(ev));
                    },
                    None => {},
                }
                i = i + 1;
            }
            idx = idx + 1;
        }
        Ok(entries)
    }

    /// Looks a key up: `Ok(None)` when the filter rules it out or the chosen block
    /// lacks it, `Ok(Some(None))` when the block holds a deletion of it, and
    /// `Ok(Some(Some(v)))` when it holds the value `v`. With strictly sorted first
    /// keys the chosen block is the last one whose first key is at or below `key`.
    pub fn get(&self, key: &[u8]) -> (r: Result<Option<Option<Vec<u8>>>, FlashStoreError>)
        requires
            self.wf(),
        ensures
            !filter_admits(self.bloom_filter@, key@) ==> r matches Ok(None),
            filter_admits(self.bloom_filter@, key@) && strictly_sorted(key_views(self.first_keys@))
                && self.first_keys@.len() == self.n_blocks() ==> (exists|p: int| {
                &&& #[trigger] split_point(key_views(self.first_keys@), key@, p)
                &&& if block_for(p) >= self.n_blocks() {
                    r matches Ok(None)
                } else {
                    match self.block_read(block_for(p)) {
                        Some(es) => r matches Ok(a) && answer_view(a)
                            == lookup_answer(first_with_key(es, key@)),
                        None => r is Err,
                    }
                }
            }),
    {
        if !BloomFilter::may_contain(self.bloom_filter.as_slice(), key) {
            return Ok(None);
        }
        let ghost sorted = strictly_sorted(key_views(self.first_keys@)) && self.first_keys@.len() == self.n_blocks();
        let p = find_split(&self.first_keys, key);
        let block_idx = if p == 0 { 0 } else { p - 1 };
        if block_idx >= self.block_offsets.len() {
            return Ok(None);
        }
        let block = match self.read_block(block_idx) {
            Ok(b) => b,
            Err(e) => return Err(e),
        };
        let ghost bb = self.block_bytes(block_idx as int);
        proof {
            if sorted {
                assert(split_point(key_views(self.first_keys@), key@, p as int));
            }
        }
        let m = block.entries_len();
        let mut i: usize = 0;
        while i < m
            invariant
                filter_admits(self.bloom_filter@, key@),
                sorted == (strictly_sorted(key_views(self.first_keys@)) && self.first_keys@.len() == self.n_blocks()),
                sorted ==> split_point(key_views(self.first_keys@), key@, p as int),
                block_idx as int == block_for(p as int),
                block_idx < self.n_blocks(),
                bb == self.block_bytes(block_idx as int),
                self.block_read(block_idx as int) == Some(block_entries(bb)),
                m == block.offsets@.len(),
                m == block_count(bb),
                block.slots_ok(),
                forall|j: int| 0 <= j < m ==> #[trigger] entry_at(block.data@, block.offsets@[j] as int) == block_entry(bb, j),
                i <= m,
                first_with_key(block_entries_upto(bb, i as int), key@) is None,
            decreases m - i,
        {
            assert(slot_ok(block.data@, block.offsets@[i as int] as int));
            let ghost prefix = block_entries_upto(bb, i as int);
            match block.get_entry(i) {
                Some(e) => {
                    proof { lemma_first_with_key_push(prefix, entry_view(e), key@); }
                    if key_eq(e.key.as_slice(), key) {
                        proof { lemma_first_with_key_extend(block_entries_upto(bb, i + 1), bb, i + 1, m as int, key@); }
                        if e.is_tombstone() {
                            return Ok(Some(None));
                        } else {
                            return Ok(Some(Some(e.value)));
                        }
                    }
                },
                None => {},
            }
            i = i + 1;
        }
        Ok(None)
    }
}

/// The bytes of one block have a fitting offset array and slots inside the entry region.
pub fn block_bytes_ok(bytes: &[u8]) -> (r: bool)
    requires
        bytes@.len() >= 4,
    ensures
        r == (block_shape_ok(bytes@) && block_slots_ok(bytes@)),
{
    let len = bytes.len();
    let count = vstd::bytes::u32_from_le_bytes(slice_subrange(bytes, len - 4, len)) as usize;
    if count > (len - 4) / 4 {
        return false;
    }
    let region_end = len - 4 - 4 * count;
    let ghost region = bytes@.subrange(0, region_end as int);
    let mut i: usize = 0;
    while i < count
        invariant
            len == bytes@.len(),
            block_shape_ok(bytes@),
            count == block_count(bytes@),
            region_end == block_region_end(bytes@),
            region == bytes@.subrange(0, region_end as int),
            region_end + 4 * count + 4 == len,
            i <= count,
            forall|j: int| 0 <= j < i ==> #[trigger] slot_ok(bytes@.subrange(0, region_end as int), block_offset(bytes@, j)),
        decreases count - i,
    {
        let at = region_end + 4 * i;
        let off = vstd::bytes::u32_from_le_bytes(slice_subrange(bytes, at, at + 4)) as usize;
        assert(off as int == block_offset(bytes@, i as int));
        if region_end < 4 || off > region_end - 4 {
            assert(!slot_ok(region, block_offset(bytes@, i as int)));
            return false;
        }
        let l = vstd::bytes::u32_from_le_bytes(slice_subrange(bytes, off, off + 4)) as usize;
        assert(bytes@.subrange(0, region_end as int).subrange(off as int, off + 4) =~= bytes@.subrange(off as int, off + 4));
        if l > region_end - 4 - off {
            assert(!slot_ok(region, block_offset(bytes@, i as int)));
            return false;
        }
        i = i + 1;
    }
    true
}

/// Binary search for the split point of `key` among the first keys.
pub fn find_split(keys: &Vec<Vec<u8>>, key: &[u8]) -> (p: usize)
    ensures
        p <= keys@.len(),
        strictly_sorted(key_views(keys@)) ==> split_point(key_views(keys@), key@, p as int),
{
    let ghost ks = key_views(keys@);
    let ghost sorted = strictly_sorted(ks);
    let mut lo: usize = 0;
    let mut hi: usize = keys.len();
    while lo < hi
        invariant
            ks == key_views(keys@),
            sorted == strictly_sorted(ks),
            lo <= hi <= keys@.len(),
            sorted ==> forall|i: int| 0 <= i < lo ==> lex_le(#[trigger] ks[i], key@),
            sorted ==> forall|i: int| hi <= i < ks.len() ==> lex_lt(key@, #[trigger] ks[i]),
        decreases hi - lo,
    {
        let mid = lo + (hi - lo) / 2;
        let below = key_lt(key, keys[mid].as_slice());
        assert(ks[mid as int] == keys@[mid as int]@);
        if below {
            proof {
                if sorted {
                    assert forall|i: int| mid <= i < ks.len() implies lex_lt(key@, #[trigger] ks[i]) by {
                        if i > mid {
                            crate::keys::lemma_lex_trans(key@, ks[mid as int], ks[i]);
                        }
                    }
                }
            }
            hi = mid;
        } else {
            proof {
                crate::keys::lemma_lex_total(key@, ks[mid as int]);
                if sorted {
                    assert forall|i: int| 0 <= i < mid + 1 implies lex_le(#[trigger] ks[i], key@) by {
                        if i < mid {
                            if ks[mid as int] == key@ {
                            } else {
                                crate::keys::lemma_lex_trans(ks[i], ks[mid as int], key@);
                            }
                        }
                    }
                }
            }
            lo = mid + 1;
        }
    }
    lo
}

proof fn lemma_first_with_key_push(es: Seq<EntryView>, e: EntryView, key: Seq<u8>)
    requires
        first_with_key(es, key) is None,
    ensures
        first_with_key(es.push(e), key) == (if e.0 == key { Some(e) } else { None }),
    decreases es.len(),
{
    if es.len() == 0 {
        assert(es.push(e).drop_first() =~= Seq::<EntryView>::empty());
    } else {
        assert(es.push(e).drop_first() =~= es.drop_first().push(e));
        lemma_first_with_key_push(es.drop_first(), e, key);
    }
}

proof fn lemma_first_with_key_append(a: Seq<EntryView>, b: Seq<EntryView>, key: Seq<u8>)
    requires
        first_with_key(a, key) is Some,
    ensures
        first_with_key(a + b, key) == first_with_key(a, key),
    decreases a.len(),
{
    if a[0].0 != key {
        assert((a + b).drop_first() =~= a.drop_first() + b);
        lemma_first_with_key_append(a.drop_first(), b, key);
    }
}

proof fn lemma_block_entries_upto_prefix(bb: Seq<u8>, i: int, m: int)
    requires
        0 <= i <= m,
    ensures
        exists|rest: Seq<EntryView>| block_entries_upto(bb, m) == block_entries_upto(bb, i) + rest,
    decreases m - i,
{
    if i == m {
        assert(block_entries_upto(bb, m) =~= block_entries_upto(bb, i) + Seq::<EntryView>::empty());
    } else {
        lemma_block_entries_upto_prefix(bb, i, m - 1);
        let rest = choose|rest: Seq<EntryView>| block_entries_upto(bb, m - 1) == block_entries_upto(bb, i) + rest;
        match block_entry(bb, m - 1) {
            Some(e) => {
                assert(block_entries_upto(bb, m) =~= block_entries_upto(bb, i) + rest.push(e));
            },
            None => {},
        }
    }
}

proof fn lemma_first_with_key_extend(pre: Seq<EntryView>, bb: Seq<u8>, i: int, m: int, key: Seq<u8>)
    requires
        0 <= i <= m,
        pre == block_entries_upto(bb, i),
        first_with_key(pre, key) is Some,
    ensures
        first_with_key(block_entries_upto(bb, m), key) == first_with_key(pre, key),
{
    lemma_block_entries_upto_prefix(bb, i, m);
    let rest = choose|rest: Seq<EntryView>| block_entries_upto(bb, m) == block_entries_upto(bb, i) + rest;
    lemma_first_with_key_append(pre, rest, key);
}

proof fn lemma_scan_none_after(t: TableReader, i: int, n: int)
    requires
        1 <= i <= n,
        t.scan_upto(i) is None,
    ensures
        t.scan_upto(n) is None,
    decreases n - i,
{
    if i < n {
        lemma_scan_none_after(t, i + 1, n);
    }
}

/// Whether a table image opens and every block of it reads without a fault.
pub fn table_image_ok(image: &[u8]) -> (r: bool)
    ensures
        r == table_wf(image@),
{
    match TableReader::open(slice_to_vec(image)) {
        Ok(t) => {
            proof {
                lemma_reader_matches_image(t, image@);
            }
            t.check()
        },
        Err(_) => false,
    }
}

/// An opened image satisfies `table_wf` exactly when its reader passes `check`,
/// and a reader's scan is the image's contents.
pub proof fn lemma_reader_matches_image(t: TableReader, image: Seq<u8>)
    requires
        table_opens(image),
        t.data@ == image,
        t.footer == table_footer(image)->0,
        t.bloom_filter@ == tbl_filter(image),
        bincode_index_parse(slice_of(image, t.footer.index_offset, t.footer.index_size))
            == Some((key_views(t.first_keys@), t.block_offsets@)),
    ensures
        t.wf() == table_wf(image),
        t.table_scan() == table_contents(image),
{
    assert(tbl_index(image).1 == t.block_offsets@);
    if t.wf() {
        assert forall|i: int| 0 <= i < tbl_index(image).1.len() implies #[trigger] tbl_block_readable(image, tbl_index(image).1, table_footer(image)->0.meta_index_offset, i) by {
            assert(t.block_readable(i));
        }
    }
    if table_wf(image) {
        assert forall|i: int| 0 <= i < t.n_blocks() implies #[trigger] t.block_readable(i) by {
            assert(tbl_block_readable(image, tbl_index(image).1, table_footer(image)->0.meta_index_offset, i));
        }
    }
}

} // verus!
