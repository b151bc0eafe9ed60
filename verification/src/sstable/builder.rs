//! Building a table image: entries are cut into blocks by size, then the Bloom
//! filter over all keys, the index of first keys and block offsets, and the footer follow.
use vstd::prelude::*;
use crate::config::Options;
use crate::error::FlashStoreError;
use crate::types::{Entry, sizes_sum};
use crate::sstable::block::{Block, EntryView, entry_view, entry_views, block_len, block_shape_ok, block_count,
    block_slots_ok, block_entry};
use crate::sstable::bloom::{BloomFilter, filter_probeable, filter_admits};
use crate::sstable::lookup::{table_sound, block_keys_within};
use crate::keys::{lex_lt, lex_le};
use crate::sstable::footer::{Footer, footer_bytes, footer_decode, MAGIC_NUMBER};
use crate::sstable::reader::{table_contents, table_wf, block_entries, block_entries_upto, table_footer,
    table_opens, tbl_index, tbl_filter, tbl_scan_upto, tbl_block_read, tbl_block_bytes, tbl_block_end,
    tbl_block_readable, slice_of, range_in};
use crate::wire::{bincode_index_parse, serialize_index, key_views};

verus! {

pub open spec fn flatten(bs: Seq<Seq<Entry>>) -> Seq<Entry>
    decreases bs.len(),
{
    if bs.len() == 0 {
        Seq::empty()
    } else {
        flatten(bs.drop_last()) + bs.last()
    }
}

/// The bytes of an encoded block of `es` read back as `es`.
pub open spec fn encodes_block(bytes: Seq<u8>, es: Seq<Entry>) -> bool {
    &&& bytes.len() == block_len(es)
    &&& block_shape_ok(bytes)
    &&& block_count(bytes) == es.len()
    &&& block_slots_ok(bytes)
    &&& forall|i: int| 0 <= i < es.len() ==> #[trigger] block_entry(bytes, i) == Some(entry_view(es[i]))
}

/// The filter of `n` keys at `bits_per_key` bits each can be sized and probed:
/// its bit count fits in `usize`, and its size in bits taken as a `u32` is not zero.
pub open spec fn filter_fits(n: int, bits_per_key: int) -> bool {
    &&& n * bits_per_key + 71 <= usize::MAX
    &&& n > 0 ==> ({
        let bits = if n * bits_per_key < 64 { 64 } else { n * bits_per_key };
        (((bits + 7) / 8 * 8) as int) as u32 != 0
    })
}

/// Tests `filter_fits` for a key count.
pub fn filter_fits_for(n: usize, bits_per_key: usize) -> (r: bool)
    ensures
        r == filter_fits(n as int, bits_per_key as int),
{
    let prod = match n.checked_mul(bits_per_key) {
        Some(p) => p,
        None => return false,
    };
    if prod > usize::MAX - 71 {
        return false;
    }
    if n == 0 {
        return true;
    }
    let bits: usize = if prod < 64 { 64 } else { prod };
    let bytes: usize = (bits + 7) / 8;
    let total: u64 = bytes as u64 * 8;
    #[verifier::truncate]
    let nb: u32 = total as u32;
    nb != 0
}

/// What an entry weighs in a block's running size: key, value and nine bytes.
pub open spec fn view_size(v: EntryView) -> int {
    (v.0.len() + v.1.len() + 9) as int
}

pub open spec fn views_size(vs: Seq<EntryView>) -> int
    decreases vs.len(),
{
    if vs.len() == 0 {
        0
    } else {
        views_size(vs.drop_last()) + view_size(vs.last())
    }
}

/// Bytes of the encoded block of entries with these views.
pub open spec fn views_block_len(vs: Seq<EntryView>) -> int {
    views_size(vs) + 27 * vs.len() + 4
}

/// Adding entries one by one to a builder cutting blocks at `block_size`:
/// the bytes written so far and the entries of the open block, or `None` once
/// an entry has found no room (the open block's running size or encoded length
/// beyond `usize`, the image beyond `usize`, or the block beyond 32-bit offsets).
pub open spec fn build_run(vs: Seq<EntryView>, block_size: int) -> Option<(int, Seq<EntryView>)>
    decreases vs.len(),
{
    if vs.len() == 0 {
        Some((0, Seq::empty()))
    } else {
        match build_run(vs.drop_last(), block_size) {
            None => None,
            Some((off, cur)) => {
                let c2 = cur.push(vs.last());
                if views_size(c2) <= usize::MAX && off + views_block_len(c2) <= usize::MAX
                    && views_block_len(c2) <= u32::MAX {
                    if views_size(c2) >= block_size {
                        Some((off + views_block_len(c2), Seq::empty()))
                    } else {
                        Some((off, c2))
                    }
                } else {
                    None
                }
            },
        }
    }
}

/// A table of these entries can be built: each entry finds room, and the
/// filter over their keys can be sized.
pub open spec fn table_fits(vs: Seq<EntryView>, block_size: int, bits_per_key: int) -> bool {
    vs.len() == 0 || (filter_fits(vs.len() as int, bits_per_key) && build_run(vs, block_size) is Some)
}

pub proof fn lemma_views_size(es: Seq<Entry>)
    ensures
        views_size(entry_views(es)) == sizes_sum(es),
        views_block_len(entry_views(es)) == block_len(es),
    decreases es.len(),
{
    if es.len() > 0 {
        lemma_views_size(es.drop_last());
        assert(entry_views(es).drop_last() =~= entry_views(es.drop_last()));
    }
    lemma_block_len_sizes(es);
}

/// Once an entry found no room, a longer run finds none either.
pub proof fn lemma_build_run_fails_on(vs: Seq<EntryView>, block_size: int, n: int)
    requires
        0 <= n <= vs.len(),
        build_run(vs.take(n), block_size) is None,
    ensures
        build_run(vs, block_size) is None,
    decreases vs.len() - n,
{
    if n < vs.len() {
        assert(vs.take(n + 1).drop_last() =~= vs.take(n));
        lemma_build_run_fails_on(vs, block_size, n + 1);
    } else {
        assert(vs.take(n) =~= vs);
    }
}

/// Accumulates a table image in memory.
pub struct TableBuilder {
    pub options: Options,
    pub current_entries: Vec<Entry>,
    pub block_offsets: Vec<u64>,
    pub first_keys: Vec<Vec<u8>>,
    pub all_keys: Vec<Vec<u8>>,
    pub offset: u64,
    pub out: Vec<u8>,
    /// Entries of the blocks written so far.
    pub blocks: Ghost<Seq<Seq<Entry>>>,
}

impl TableBuilder {
    /// Every entry added so far, in order.
    pub open spec fn added(self) -> Seq<Entry> {
        flatten(self.blocks@) + self.current_entries@
    }

    pub open spec fn block_end_at(self, b: int) -> int {
        if b + 1 < self.blocks@.len() { self.block_offsets@[b + 1] as int } else { self.offset as int }
    }

    /// Each block that fits in 32-bit offsets is encoded at its place in the output.
    #[verifier::opaque]
    pub open spec fn blocks_encoded(self) -> bool {
        forall|b: int| 0 <= b < self.blocks@.len() ==> #[trigger] block_len(self.blocks@[b]) <= u32::MAX ==>
            encodes_block(self.out@.subrange(self.block_offsets@[b] as int, self.block_end_at(b)), self.blocks@[b])
    }

    /// The key list holds the key of every entry added, in order.
    #[verifier::opaque]
    pub open spec fn keys_tracked(self) -> bool {
        key_views(self.all_keys@) == self.added().map_values(|e: Entry| e.key@)
    }

    pub open spec fn inv(self) -> bool {
        &&& self.blocks_encoded()
        &&& self.keys_tracked()
        &&& self.out@.len() == self.offset
        &&& self.block_offsets@.len() == self.blocks@.len()
        &&& self.first_keys@.len() == self.blocks@.len() + (if self.current_entries@.len() > 0 { 1int } else { 0int })
        &&& forall|b: int| 0 <= b < self.blocks@.len() ==> #[trigger] self.blocks@[b].len() > 0
        &&& forall|b: int| 0 <= b < self.blocks@.len() ==> #[trigger] self.first_keys@[b]@ == self.blocks@[b][0].key@
        &&& self.current_entries@.len() > 0 ==> self.first_keys@[self.blocks@.len() as int]@ == self.current_entries@[0].key@
        &&& self.blocks@.len() > 0 ==> self.block_offsets@[0] == 0
        &&& self.blocks@.len() == 0 ==> self.offset == 0
        &&& forall|b: int| 0 <= b < self.blocks@.len() ==> #[trigger] self.block_end_at(b) <= self.offset
        &&& forall|b: int| 0 <= b < self.blocks@.len() ==> #[trigger] self.block_offsets@[b] as int + block_len(self.blocks@[b]) == self.block_end_at(b)
        &&& sizes_sum(self.current_entries@) <= usize::MAX
        &&& self.current_entries@.len() > 0 ==> self.offset + block_len(self.current_entries@) <= usize::MAX
        &&& self.blocks_fit()
    }

    /// The entry fits: the current block's sizes with it stay within `usize`, and
    /// so does the image once that block is written.
    pub open spec fn room_for(self, entry: Entry) -> bool {
        &&& sizes_sum(self.current_entries@.push(entry)) <= usize::MAX
        &&& self.offset + block_len(self.current_entries@.push(entry)) <= usize::MAX
        &&& block_len(self.current_entries@.push(entry)) <= u32::MAX
    }

    /// Every block, the current one included, stays within 32-bit offsets.
    pub open spec fn blocks_fit(self) -> bool {
        &&& forall|b: int| 0 <= b < self.blocks@.len() ==> #[trigger] block_len(self.blocks@[b]) <= u32::MAX
        &&& block_len(self.current_entries@) <= u32::MAX
    }

    pub fn new(options: Options) -> (b: TableBuilder)
        ensures
            b.inv(),
            b.options == options,
            b.added().len() == 0,
            b.blocks_fit(),
    {
        let b = TableBuilder {
            options,
            current_entries: Vec::new(),
            block_offsets: Vec::new(),
            first_keys: Vec::new(),
            all_keys: Vec::new(),
            offset: 0,
            out: Vec::new(),
            blocks: Ghost(Seq::empty()),
        };
        assert(b.added() =~= Seq::<Entry>::empty());
        assert(key_views(b.all_keys@) =~= b.added().map_values(|e: Entry| e.key@));
        proof {
            reveal(TableBuilder::blocks_encoded);
            reveal(TableBuilder::keys_tracked);
        }
        b
    }

    /// Adds an entry; once the entries of the current block weigh `block_size`
    /// bytes or more, the block is written out. When the current block would
    /// outgrow the 32-bit offsets inside a block, or the image the address space,
    /// fails and changes nothing.
    pub fn add(&mut self, entry: Entry) -> (r: Result<(), FlashStoreError>)
        requires
            old(self).inv(),
        ensures
            r is Ok <==> old(self).room_for(entry),
            r is Ok ==> {
                &&& final(self).inv()
                &&& final(self).options == old(self).options
                &&& final(self).added() == old(self).added().push(entry)
                &&& if sizes_sum(old(self).current_entries@.push(entry)) >= old(self).options.block_size {
                    &&& final(self).offset == old(self).offset + block_len(old(self).current_entries@.push(entry))
                    &&& final(self).current_entries@.len() == 0
                } else {
                    &&& final(self).offset == old(self).offset
                    &&& final(self).current_entries@ == old(self).current_entries@.push(entry)
                }
            },
            r matches Err(e) ==> e is TableError && *final(self) == *old(self),
    {
        let ghost cur = self.current_entries@;
        let mut total: usize = 0;
        let mut i: usize = 0;
        while i < self.current_entries.len()
            invariant
                i <= self.current_entries@.len(),
                sizes_sum(self.current_entries@) <= usize::MAX,
                total == sizes_sum(self.current_entries@.take(i as int)),
            decreases self.current_entries@.len() - i,
        {
            proof {
                assert(self.current_entries@.take(i + 1).drop_last() =~= self.current_entries@.take(i as int));
                lemma_sizes_sum_monotone(self.current_entries@, i + 1, self.current_entries@.len() as int);
                assert(self.current_entries@.take(self.current_entries@.len() as int) =~= self.current_entries@);
            }
            total = total + self.current_entries[i].estimated_size();
            i = i + 1;
        }
        proof {
            assert(self.current_entries@.take(i as int) =~= cur);
            assert(cur.push(entry).drop_last() =~= cur);
            lemma_block_len_sizes(cur.push(entry));
        }
        let too_large = FlashStoreError::TableError(String::from_str("table too large"));
        let kv = match entry.key.len().checked_add(entry.value.len()) {
            Some(x) => x,
            None => return Err(too_large),
        };
        let esize = match kv.checked_add(9) {
            Some(x) => x,
            None => return Err(too_large),
        };
        let new_total = match total.checked_add(esize) {
            Some(x) => x,
            None => return Err(too_large),
        };
        let n = self.current_entries.len() + 1;
        let per = match n.checked_mul(27) {
            Some(x) => x,
            None => return Err(too_large),
        };
        let blen = match new_total.checked_add(per) {
            Some(x) => match x.checked_add(4) {
                Some(y) => y,
                None => return Err(too_large),
            },
            None => return Err(too_large),
        };
        let off = self.out.len();
        if blen > usize::MAX - off {
            return Err(too_large);
        }
        if blen > 0xffff_ffff {
            return Err(too_large);
        }
        let ghost old_added = self.added();
        let ghost old_self = *self;
        if self.current_entries.len() == 0 {
            self.first_keys.push(entry.key.clone());
        }
        self.all_keys.push(entry.key.clone());
        self.current_entries.push(entry);
        proof {
            assert(self.added() =~= old_added.push(entry));
            reveal(TableBuilder::keys_tracked);
            reveal(TableBuilder::blocks_encoded);
            assert(key_views(self.all_keys@) =~= key_views(old_self.all_keys@).push(entry.key@));
            assert(self.added().map_values(|e: Entry| e.key@) =~= old_added.map_values(|e: Entry| e.key@).push(entry.key@));
            assert(self.current_entries@[0] == old(self).current_entries@.push(entry)[0]);
            assert(self.blocks@ == old_self.blocks@);
            assert(self.out@ == old_self.out@);
            assert(self.block_offsets@ == old_self.block_offsets@);
        }
        assert(new_total == sizes_sum(old(self).current_entries@.push(entry)));
        if new_total >= self.options.block_size {
            self.flush_block();
        }
        Ok(())
    }

    /// Writes the current block, if any, and starts a new one.
    pub fn flush_block(&mut self)
        requires
            old(self).inv(),
        ensures
            final(self).inv(),
            final(self).options == old(self).options,
            final(self).added() == old(self).added(),
            final(self).current_entries@.len() == 0,
            final(self).all_keys == old(self).all_keys,
            final(self).first_keys == old(self).first_keys,
            final(self).blocks@.len() == old(self).blocks@.len() + (if old(self).current_entries@.len() > 0 { 1int } else { 0int }),
            final(self).offset == old(self).offset + (if old(self).current_entries@.len() > 0 { block_len(old(self).current_entries@) } else { 0int }),
    {
        if self.current_entries.len() == 0 {
            return;
        }
        let ghost old_self = *self;
        let encoded = Block::encode(self.current_entries.as_slice());
        let ghost enc = encoded@;
        let start = self.offset;
        let enc_len = encoded.len();
        let mut encoded = encoded;
        self.out.append(&mut encoded);
        self.block_offsets.push(start);
        self.offset = self.offset + enc_len as u64;
        let ghost cur = self.current_entries@;
        self.current_entries.clear();
        proof {
            self.blocks@ = old_self.blocks@.push(cur);
            let nb = self.blocks@.len() as int;
            assert(self.blocks@.drop_last() =~= old_self.blocks@);
            assert(self.added() =~= old_self.added());
            reveal(TableBuilder::keys_tracked);
            lemma_flush_offsets(old_self, *self, cur);
            lemma_flush_encoded(old_self, *self, cur, enc);
            assert forall|b: int| 0 <= b < nb implies #[trigger] self.first_keys@[b]@ == self.blocks@[b][0].key@ by {
                if b < nb - 1 {
                    assert(old_self.first_keys@[b]@ == old_self.blocks@[b][0].key@);
                }
            }
        }
    }

    /// Finishes the image: last block, Bloom filter over all keys, index, footer.
    /// While every block stays within 32-bit offsets, the image opens, reads
    /// without a fault, and holds exactly the entries added, in order.
    pub fn finish(self) -> (r: Vec<u8>)
        requires
            self.inv(),
            self.all_keys@.len() * self.options.bloom_bits_per_key + 71 <= usize::MAX,
            self.all_keys@.len() > 0 ==> ({
                let n = self.all_keys@.len() * self.options.bloom_bits_per_key;
                let bits = if n < 64 { 64 } else { n };
                (((bits + 7) / 8 * 8) as int) as u32 != 0
            }),
        ensures
            r@.len() <= u64::MAX ==> {
                &&& table_wf(r@)
                &&& table_contents(r@) == Some(entry_views(self.added()))
                &&& crate::memtable::skiplist::keys_sorted(self.added()) ==> table_sound(r@)
            },
    {
        let mut s = self;
        s.flush_block();
        let ghost sf = s;
        let bloom = BloomFilter::new(s.options.bloom_bits_per_key);
        let filter_data = bloom.build_from_keys(s.all_keys.as_slice());
        let meta_index_offset = s.offset;
        let ghost data_region = s.out@;
        let mut filter_bytes = filter_data;
        let ghost fb = filter_bytes@;
        s.out.append(&mut filter_bytes);
        let meta_index_size = s.out.len() as u64 - meta_index_offset;
        let index_offset = s.out.len() as u64;
        let index_data = serialize_index(&s.first_keys, &s.block_offsets);
        let ghost ib = index_data@;
        let mut index_bytes = index_data;
        s.out.append(&mut index_bytes);
        let index_size = s.out.len() as u64 - index_offset;
        let footer = Footer::new(meta_index_offset, meta_index_size, index_offset, index_size);
        let mut footer_data = footer.encode();
        let ghost fd = footer_data@;
        s.out.append(&mut footer_data);
        proof {
            if s.out@.len() <= u64::MAX {
                lemma_finished_image(sf, data_region, fb, ib, fd, footer, s.out@);
                if crate::memtable::skiplist::keys_sorted(self.added()) {
                    lemma_finished_sound(sf, data_region, fb, ib, fd, footer, s.out@);
                }
            }
        }
        s.out
    }
}

/// Number of entries in the first `b` blocks.
pub open spec fn prefix_len(bs: Seq<Seq<Entry>>, b: int) -> int {
    flatten(bs.take(b)).len() as int
}

proof fn lemma_flatten_index(bs: Seq<Seq<Entry>>, b: int, i: int)
    requires
        0 <= b < bs.len(),
        0 <= i < bs[b].len(),
    ensures
        prefix_len(bs, b) + i < flatten(bs).len(),
        flatten(bs)[prefix_len(bs, b) + i] == bs[b][i],
    decreases bs.len(),
{
    if b == bs.len() - 1 {
        assert(bs.take(b) =~= bs.drop_last());
    } else {
        lemma_flatten_index(bs.drop_last(), b, i);
        assert(bs.drop_last().take(b) =~= bs.take(b));
    }
}

proof fn lemma_prefix_step(bs: Seq<Seq<Entry>>, b: int)
    requires
        0 <= b < bs.len(),
    ensures
        prefix_len(bs, b + 1) == prefix_len(bs, b) + bs[b].len(),
{
    assert(bs.take(b + 1).drop_last() =~= bs.take(b));
    assert(bs.take(b + 1).last() == bs[b]);
}

proof fn lemma_prefix_grows(bs: Seq<Seq<Entry>>, b: int, c: int)
    requires
        0 <= b < c <= bs.len(),
        forall|x: int| 0 <= x < bs.len() ==> #[trigger] bs[x].len() > 0,
    ensures
        prefix_len(bs, c) >= prefix_len(bs, b) + bs[b].len(),
    decreases c - b,
{
    lemma_prefix_step(bs, c - 1);
    if b < c - 1 {
        lemma_prefix_grows(bs, b, c - 1);
    }
}

proof fn lemma_finished_sound(s: TableBuilder, data_region: Seq<u8>, fb: Seq<u8>, ib: Seq<u8>, fd: Seq<u8>, footer: Footer, t: Seq<u8>)
    requires
        s.inv(),
        s.blocks_fit(),
        s.current_entries@.len() == 0,
        data_region == s.out@,
        t == data_region + fb + ib + fd,
        t.len() <= u64::MAX,
        filter_probeable(fb),
        bincode_index_parse(ib) == Some((key_views(s.first_keys@), s.block_offsets@)),
        footer.meta_index_offset == data_region.len(),
        footer.meta_index_size == fb.len(),
        footer.index_offset == data_region.len() + fb.len(),
        footer.index_size == ib.len(),
        footer.magic == MAGIC_NUMBER,
        fd == footer_bytes(footer),
        footer_decode(fd) == Some(footer),
        fd.len() == 48,
        forall|i: int| 0 <= i < s.all_keys@.len() ==> filter_admits(fb, #[trigger] s.all_keys@[i]@),
        crate::memtable::skiplist::keys_sorted(s.added()),
    ensures
        table_sound(t),
{
    lemma_finished_image(s, data_region, fb, ib, fd, footer, t);
    reveal(TableBuilder::blocks_encoded);
    reveal(TableBuilder::keys_tracked);
    assert(t.subrange(t.len() - 48, t.len() as int) =~= fd);
    assert(table_footer(t) == Some(footer));
    assert(slice_of(t, footer.meta_index_offset, footer.meta_index_size) =~= fb);
    assert(slice_of(t, footer.index_offset, footer.index_size) =~= ib);
    let ks = tbl_index(t).0;
    let offs = tbl_index(t).1;
    let mio = footer.meta_index_offset;
    let bs = s.blocks@;
    let nb = bs.len() as int;
    assert(ks == key_views(s.first_keys@));
    assert(offs == s.block_offsets@);
    assert(s.added() =~= flatten(bs));
    let added = s.added();
    assert forall|b: int| 0 <= b < nb implies #[trigger] ks[b] == bs[b][0].key@ by {
        assert(s.first_keys@[b]@ == bs[b][0].key@);
    }
    assert forall|b: int, c: int| 0 <= b < c < ks.len() implies lex_lt(#[trigger] ks[b], #[trigger] ks[c]) by {
        assert(bs[b].len() > 0 && bs[c].len() > 0);
        lemma_flatten_index(bs, b, 0);
        lemma_flatten_index(bs, c, 0);
        lemma_prefix_grows(bs, b, c);
    }
    assert forall|b: int| 0 <= b < offs.len() implies (#[trigger] tbl_block_read(t, offs, mio, b) matches Some(es)
        && block_keys_within(es, ks, b)) by {
        let es = entry_views(bs[b]);
        assert(tbl_block_read(t, offs, mio, b) == Some(es)) by {
            crate::sstable::block::lemma_region_len_nonneg(bs[b]);
            assert(tbl_block_end(offs, mio, b) == s.block_end_at(b));
            assert(s.block_offsets@[b] as int + block_len(bs[b]) == s.block_end_at(b));
            assert(s.block_end_at(b) <= s.offset);
            let bytes = s.out@.subrange(s.block_offsets@[b] as int, s.block_end_at(b));
            assert(encodes_block(bytes, bs[b]));
            assert(t.subrange(s.block_offsets@[b] as int, s.block_end_at(b)) =~= bytes);
            assert(tbl_block_bytes(t, offs, mio, b) =~= bytes);
            lemma_block_entries_encoded(bytes, bs[b], bs[b].len() as int);
            assert(bs[b].take(bs[b].len() as int) =~= bs[b]);
        }
        assert forall|i: int| 0 <= i < es.len() implies lex_le(ks[b], #[trigger] es[i].0) && (b + 1 < ks.len() ==> lex_lt(es[i].0, ks[b + 1])) by {
            lemma_flatten_index(bs, b, 0);
            lemma_flatten_index(bs, b, i);
            if i > 0 {
                assert(lex_lt(added[prefix_len(bs, b)].key@, added[prefix_len(bs, b) + i].key@));
            }
            if b + 1 < ks.len() {
                lemma_flatten_index(bs, b + 1, 0);
                lemma_prefix_step(bs, b);
                assert(lex_lt(added[prefix_len(bs, b) + i].key@, added[prefix_len(bs, b + 1)].key@));
            }
        }
    }
    let cs = table_contents(t)->0;
    assert(cs == entry_views(added));
    assert(tbl_filter(t) == fb);
    assert(key_views(s.all_keys@).len() == s.all_keys@.len());
    assert(added.map_values(|e: Entry| e.key@).len() == added.len());
    assert forall|i: int| 0 <= i < cs.len() implies filter_admits(tbl_filter(t), #[trigger] cs[i].0) by {
        assert(key_views(s.all_keys@)[i] == added.map_values(|e: Entry| e.key@)[i]);
        assert(filter_admits(fb, s.all_keys@[i]@));
    }
}

proof fn lemma_block_len_pos(es: Seq<Entry>)
    ensures
        block_len(es) >= 4,
{
    crate::sstable::block::lemma_region_len_nonneg(es);
}

proof fn lemma_entry_views_add(a: Seq<Entry>, b: Seq<Entry>)
    ensures
        entry_views(a + b) == entry_views(a) + entry_views(b),
{
    assert(entry_views(a + b) =~= entry_views(a) + entry_views(b));
}

proof fn lemma_block_entries_encoded(bytes: Seq<u8>, es: Seq<Entry>, j: int)
    requires
        encodes_block(bytes, es),
        0 <= j <= es.len(),
    ensures
        block_entries_upto(bytes, j) == entry_views(es.take(j)),
    decreases j,
{
    if j == 0 {
        assert(entry_views(es.take(0)) =~= Seq::<EntryView>::empty());
    } else {
        lemma_block_entries_encoded(bytes, es, j - 1);
        assert(block_entry(bytes, j - 1) == Some(entry_view(es[j - 1])));
        assert(entry_views(es.take(j)) =~= entry_views(es.take(j - 1)).push(entry_view(es[j - 1])));
    }
}

proof fn lemma_scan_built(t: Seq<u8>, offs: Seq<u64>, mio: u64, blocks: Seq<Seq<Entry>>, k: int)
    requires
        0 <= k <= blocks.len(),
        offs.len() == blocks.len(),
        forall|i: int| 0 <= i < blocks.len() ==> #[trigger] tbl_block_read(t, offs, mio, i) == Some(entry_views(blocks[i])),
    ensures
        tbl_scan_upto(t, offs, mio, k) == Some(entry_views(flatten(blocks.take(k)))),
    decreases k,
{
    if k == 0 {
        assert(entry_views(flatten(blocks.take(0))) =~= Seq::<EntryView>::empty());
    } else {
        lemma_scan_built(t, offs, mio, blocks, k - 1);
        assert(blocks.take(k).drop_last() =~= blocks.take(k - 1));
        assert(blocks.take(k).last() == blocks[k - 1]);
        lemma_entry_views_add(flatten(blocks.take(k - 1)), blocks[k - 1]);
        assert(tbl_block_read(t, offs, mio, k - 1) == Some(entry_views(blocks[k - 1])));
    }
}

proof fn lemma_finished_image(s: TableBuilder, data_region: Seq<u8>, fb: Seq<u8>, ib: Seq<u8>, fd: Seq<u8>, footer: Footer, t: Seq<u8>)
    requires
        s.inv(),
        s.blocks_fit(),
        s.current_entries@.len() == 0,
        data_region == s.out@,
        t == data_region + fb + ib + fd,
        t.len() <= u64::MAX,
        filter_probeable(fb),
        bincode_index_parse(ib) == Some((key_views(s.first_keys@), s.block_offsets@)),
        footer.meta_index_offset == data_region.len(),
        footer.meta_index_size == fb.len(),
        footer.index_offset == data_region.len() + fb.len(),
        footer.index_size == ib.len(),
        footer.magic == MAGIC_NUMBER,
        fd == footer_bytes(footer),
        footer_decode(fd) == Some(footer),
        fd.len() == 48,
    ensures
        table_wf(t),
        table_contents(t) == Some(entry_views(s.added())),
{
    reveal(TableBuilder::blocks_encoded);
    assert(t.subrange(0, s.offset as int) =~= s.out@);
    assert(t.subrange(t.len() - 48, t.len() as int) =~= fd);
    assert(table_footer(t) == Some(footer));
    assert(slice_of(t, footer.meta_index_offset, footer.meta_index_size) =~= fb);
    assert(slice_of(t, footer.index_offset, footer.index_size) =~= ib);
    assert(table_opens(t));
    let offs = s.block_offsets@;
    let mio = footer.meta_index_offset;
    assert(tbl_index(t).1 == offs);
    assert(tbl_filter(t) == fb);
    assert forall|i: int| 0 <= i < s.blocks@.len() implies
        #[trigger] tbl_block_read(t, offs, mio, i) == Some(entry_views(s.blocks@[i]))
        && tbl_block_readable(t, offs, mio, i) by {
        assert(tbl_block_end(offs, mio, i) == s.block_end_at(i));
        assert(s.block_offsets@[i] as int + block_len(s.blocks@[i]) == s.block_end_at(i));
        assert(s.block_end_at(i) <= s.offset);
        assert(block_len(s.blocks@[i]) <= u32::MAX);
        let bytes = s.out@.subrange(s.block_offsets@[i] as int, s.block_end_at(i));
        assert(encodes_block(bytes, s.blocks@[i]));
        assert(t.subrange(s.block_offsets@[i] as int, s.block_end_at(i)) =~= bytes);
        assert(tbl_block_bytes(t, offs, mio, i) =~= bytes);
        lemma_block_len_pos(s.blocks@[i]);
        lemma_block_entries_encoded(bytes, s.blocks@[i], s.blocks@[i].len() as int);
        assert(s.blocks@[i].take(s.blocks@[i].len() as int) =~= s.blocks@[i]);
    }
    assert forall|i: int| 0 <= i < tbl_index(t).1.len() implies #[trigger] tbl_block_readable(t, tbl_index(t).1, table_footer(t)->0.meta_index_offset, i) by {
        assert(tbl_block_read(t, offs, mio, i) == Some(entry_views(s.blocks@[i])));
    }
    lemma_scan_built(t, offs, mio, s.blocks@, s.blocks@.len() as int);
    assert(s.blocks@.take(s.blocks@.len() as int) =~= s.blocks@);
    assert(s.added() =~= flatten(s.blocks@));
}

proof fn lemma_flush_offsets(o: TableBuilder, n: TableBuilder, cur: Seq<Entry>)
    requires
        o.inv(),
        cur == o.current_entries@,
        cur.len() > 0,
        n.blocks@ == o.blocks@.push(cur),
        n.block_offsets@ == o.block_offsets@.push(o.offset),
        n.offset == o.offset + block_len(cur),
    ensures
        n.blocks@.len() > 0 ==> n.block_offsets@[0] == 0,
        forall|b: int| 0 <= b < n.blocks@.len() ==> #[trigger] n.block_end_at(b) <= n.offset,
        forall|b: int| 0 <= b < n.blocks@.len() ==> #[trigger] n.block_offsets@[b] as int + block_len(n.blocks@[b]) == n.block_end_at(b),
        forall|b: int| 0 <= b < n.blocks@.len() ==> #[trigger] n.blocks@[b].len() > 0,
{
    let nb = n.blocks@.len() as int;
    lemma_block_len_pos(cur);
    assert forall|b: int| 0 <= b < nb implies #[trigger] n.block_end_at(b) <= n.offset by {
        if b < nb - 1 {
            assert(o.block_end_at(b) <= o.offset);
        }
    }
    assert forall|b: int| 0 <= b < nb implies #[trigger] n.block_offsets@[b] as int + block_len(n.blocks@[b]) == n.block_end_at(b) by {
        if b < nb - 1 {
            assert(o.block_offsets@[b] as int + block_len(o.blocks@[b]) == o.block_end_at(b));
        }
    }
    assert forall|b: int| 0 <= b < nb implies #[trigger] n.blocks@[b].len() > 0 by {
        if b < nb - 1 {
            assert(o.blocks@[b].len() > 0);
        }
    }
}

proof fn lemma_flush_encoded(o: TableBuilder, n: TableBuilder, cur: Seq<Entry>, enc: Seq<u8>)
    requires
        o.inv(),
        cur == o.current_entries@,
        n.blocks@ == o.blocks@.push(cur),
        n.block_offsets@ == o.block_offsets@.push(o.offset),
        n.offset == o.offset + block_len(cur),
        n.out@ == o.out@ + enc,
        enc.len() == block_len(cur),
        block_len(cur) <= u32::MAX ==> encodes_block(enc, cur),
    ensures
        n.blocks_encoded(),
{
    reveal(TableBuilder::blocks_encoded);
    let nb = n.blocks@.len() as int;
    assert forall|b: int| 0 <= b < nb implies #[trigger] block_len(n.blocks@[b]) <= u32::MAX ==>
        encodes_block(n.out@.subrange(n.block_offsets@[b] as int, n.block_end_at(b)), n.blocks@[b]) by {
        if b < nb - 1 {
            assert(o.block_offsets@[b] as int + block_len(o.blocks@[b]) == o.block_end_at(b));
            assert(o.block_end_at(b) <= o.offset);
            lemma_block_len_pos(o.blocks@[b]);
            assert(n.block_end_at(b) == o.block_end_at(b));
            assert(n.out@.subrange(n.block_offsets@[b] as int, n.block_end_at(b))
                =~= o.out@.subrange(o.block_offsets@[b] as int, o.block_end_at(b)));
        } else {
            assert(n.out@.subrange(n.block_offsets@[b] as int, n.block_end_at(b)) =~= enc);
        }
    }
}

/// The key list holds one key per entry added.
pub proof fn lemma_all_keys_len(b: TableBuilder)
    requires
        b.inv(),
    ensures
        b.all_keys@.len() == b.added().len(),
{
    reveal(TableBuilder::keys_tracked);
    assert(key_views(b.all_keys@).len() == b.all_keys@.len());
}

pub proof fn lemma_block_len_sizes(es: Seq<Entry>)
    ensures
        block_len(es) == sizes_sum(es) + 27 * es.len() + 4,
    decreases es.len(),
{
    if es.len() > 0 {
        lemma_block_len_sizes(es.drop_last());
    }
}

proof fn lemma_sizes_sum_monotone(es: Seq<Entry>, a: int, b: int)
    requires
        0 <= a <= b <= es.len(),
    ensures
        sizes_sum(es.take(a)) <= sizes_sum(es.take(b)),
    decreases b - a,
{
    if a < b {
        assert(es.take(b).drop_last() =~= es.take(b - 1));
        lemma_sizes_sum_monotone(es, a, b - 1);
    }
}

} // verus!
