//! Data block: length-prefixed encoded entries, then the entry offsets
//! (`u32` LE each), then the entry count (`u32` LE).
use vstd::prelude::*;
use vstd::bytes::*;
use vstd::slice::*;
use crate::error::FlashStoreError;
use crate::types::{Entry, ValueType};
use crate::wire::{bincode_entry_bytes, bincode_entry_parse, serialize_entry, deserialize_entry};

verus! {

/// Abstract entry: key, value, type, sequence number.
pub type EntryView = (Seq<u8>, Seq<u8>, ValueType, u64);

pub open spec fn entry_view(e: Entry) -> EntryView {
    (e.key@, e.value@, e.value_type, e.seq_no)
}

pub open spec fn entry_views(es: Seq<Entry>) -> Seq<EntryView> {
    es.map_values(|e: Entry| entry_view(e))
}

pub open spec fn type_tag(t: ValueType) -> u32 {
    match t {
        ValueType::Value => 0,
        ValueType::Tombstone => 1,
    }
}

pub open spec fn entry_payload(e: Entry) -> Seq<u8> {
    bincode_entry_bytes(e.key@, e.value@, type_tag(e.value_type), e.seq_no)
}

/// Bytes one entry takes in the entry region: length prefix and payload.
pub open spec fn slot_size(e: Entry) -> int {
    (e.key@.len() + e.value@.len() + 32) as int
}

pub open spec fn region_len(es: Seq<Entry>) -> int
    decreases es.len(),
{
    if es.len() == 0 {
        0
    } else {
        region_len(es.drop_last()) + slot_size(es.last())
    }
}

/// Size of the encoded block of `es`.
pub open spec fn block_len(es: Seq<Entry>) -> int {
    region_len(es) + 4 * es.len() + 4
}

pub open spec fn u32_at(data: Seq<u8>, at: int) -> int {
    spec_u32_from_le_bytes(data.subrange(at, at + 4)) as int
}

/// Entry count stored in the last four bytes.
pub open spec fn block_count(data: Seq<u8>) -> int {
    u32_at(data, data.len() - 4)
}

/// The count fits: the offset array and the count lie inside the bytes.
pub open spec fn block_shape_ok(data: Seq<u8>) -> bool {
    data.len() >= 4 && data.len() - 4 >= 4 * block_count(data)
}

pub open spec fn block_region_end(data: Seq<u8>) -> int {
    data.len() - 4 - 4 * block_count(data)
}

pub open spec fn block_offset(data: Seq<u8>, i: int) -> int {
    u32_at(data, block_region_end(data) + 4 * i)
}

/// The entry slot at `off` in an entry region lies inside it.
pub open spec fn slot_ok(region: Seq<u8>, off: int) -> bool {
    off + 4 <= region.len() && off + 4 + u32_at(region, off) <= region.len()
}

/// The entry whose slot starts at `off` in an entry region, if its payload reads
/// as an entry with a known type tag.
pub open spec fn entry_at(region: Seq<u8>, off: int) -> Option<EntryView> {
    match bincode_entry_parse(region.subrange(off + 4, off + 4 + u32_at(region, off))) {
        Some(t) => if t.2 == 0 {
            Some((t.0, t.1, ValueType::Value, t.3))
        } else if t.2 == 1 {
            Some((t.0, t.1, ValueType::Tombstone, t.3))
        } else {
            None
        },
        None => None,
    }
}

/// The `i`-th entry of an encoded block.
pub open spec fn block_entry(data: Seq<u8>, i: int) -> Option<EntryView> {
    entry_at(data.subrange(0, block_region_end(data)), block_offset(data, i))
}

/// Every slot of an encoded block lies inside its entry region.
pub open spec fn block_slots_ok(data: Seq<u8>) -> bool {
    forall|i: int| 0 <= i < block_count(data) ==> #[trigger] slot_ok(data.subrange(0, block_region_end(data)), block_offset(data, i))
}

proof fn lemma_region_len_step(es: Seq<Entry>, i: int)
    requires
        0 <= i < es.len(),
    ensures
        region_len(es.take(i + 1)) == region_len(es.take(i)) + slot_size(es[i]),
{
    assert(es.take(i + 1).drop_last() =~= es.take(i));
}

pub proof fn lemma_region_len_nonneg(es: Seq<Entry>)
    ensures
        region_len(es) >= 0,
    decreases es.len(),
{
    if es.len() > 0 {
        lemma_region_len_nonneg(es.drop_last());
    }
}

/// A decoded data block: the entry region and the entry offsets.
#[derive(Debug, Clone)]
pub struct Block {
    pub data: Vec<u8>,
    pub offsets: Vec<u32>,
}

impl Block {
    /// Every offset designates a slot inside the entry region.
    pub open spec fn slots_ok(self) -> bool {
        forall|i: int| 0 <= i < self.offsets@.len() ==> #[trigger] slot_ok(self.data@, self.offsets@[i] as int)
    }

    /// Encodes a run of entries. While the block stays within 32-bit offsets,
    /// every entry reads back from the result at its position.
    pub fn encode(entries: &[Entry]) -> (r: Vec<u8>)
        requires
            block_len(entries@) <= usize::MAX,
        ensures
            r@.len() == block_len(entries@),
            block_len(entries@) <= u32::MAX ==> {
                &&& block_shape_ok(r@)
                &&& block_count(r@) == entries@.len()
                &&& block_slots_ok(r@)
                &&& forall|i: int| 0 <= i < entries@.len() ==> #[trigger] block_entry(r@, i) == Some(entry_view(entries@[i]))
            },
    {
        let mut buf: Vec<u8> = Vec::new();
        let mut offsets: Vec<u32> = Vec::new();
        let ghost fits = block_len(entries@) <= u32::MAX;
        let ghost mut starts: Seq<int> = Seq::empty();
        let n = entries.len();
        proof {
            lemma_region_len_nonneg(entries@);
            assert(entries@.take(n as int) =~= entries@);
        }
        let mut i: usize = 0;
        while i < n
            invariant
                n == entries@.len(),
                i <= n,
                block_len(entries@) <= usize::MAX,
                fits == (block_len(entries@) <= u32::MAX),
                region_len(entries@.take(n as int)) == region_len(entries@),
                buf@.len() == region_len(entries@.take(i as int)),
                offsets@.len() == i,
                starts.len() == i,
                forall|j: int| 0 <= j < i ==> #[trigger] starts[j] + slot_size(entries@[j]) <= buf@.len(),
                forall|j: int| 0 <= j < i ==> 0 <= #[trigger] starts[j],
                fits ==> forall|j: int| 0 <= j < i ==> #[trigger] offsets@[j] as int == starts[j],
                fits ==> forall|j: int| 0 <= j < i ==> (#[trigger] slot_ok(buf@, starts[j])
                    && entry_at(buf@, starts[j]) == Some(entry_view(entries@[j]))),
            decreases n - i,
        {
            proof {
                lemma_region_len_step(entries@, i as int);
                lemma_region_len_nonneg(entries@.take(i + 1));
                lemma_region_len_monotone(entries@, i + 1, n as int);
            }
            let e = &entries[i];
            #[verifier::truncate]
            let off: u32 = buf.len() as u32;
            offsets.push(off);
            let ghost start = buf@.len() as int;
            let ghost old_buf = buf@;
            let enc = serialize_entry(e.key.as_slice(), e.value.as_slice(), tag_of(e.value_type), e.seq_no);
            #[verifier::truncate]
            let len32: u32 = enc.len() as u32;
            let mut len_bytes = u32_to_le_bytes(len32);
            buf.append(&mut len_bytes);
            let mut enc = enc;
            let ghost payload = enc@;
            buf.append(&mut enc);
            proof {
                lemma_auto_spec_u32_to_from_le_bytes();
                starts = starts.push(start);
                assert(buf@.len() == region_len(entries@.take(i + 1)));
                assert forall|j: int| 0 <= j < i + 1 implies #[trigger] starts[j] + slot_size(entries@[j]) <= buf@.len() by {}
                if fits {
                    assert(region_len(entries@) <= u32::MAX);
                    assert(off as int == start);
                    assert(len32 as int == payload.len());
                    assert(buf@.subrange(start, start + 4) =~= spec_u32_to_le_bytes(len32));
                    assert(u32_at(buf@, start) == payload.len());
                    assert(buf@.subrange(start + 4, start + 4 + payload.len()) =~= payload);
                    assert forall|j: int| 0 <= j < i + 1 implies (#[trigger] slot_ok(buf@, starts[j])
                        && entry_at(buf@, starts[j]) == Some(entry_view(entries@[j]))) by {
                        if j < i {
                            let sj = starts[j];
                            assert(slot_ok(old_buf, sj));
                            assert(buf@.subrange(sj, sj + 4) =~= old_buf.subrange(sj, sj + 4));
                            let lj = u32_at(old_buf, sj);
                            assert(buf@.subrange(sj + 4, sj + 4 + lj) =~= old_buf.subrange(sj + 4, sj + 4 + lj));
                        } else {
                            match e.value_type {
                                ValueType::Value => {},
                                ValueType::Tombstone => {},
                            }
                        }
                    }
                }
            }
            i = i + 1;
        }
        let region_end = buf.len();
        let ghost region = buf@;
        let mut k: usize = 0;
        while k < n
            invariant
                n == entries@.len(),
                offsets@.len() == n,
                k <= n,
                region_end == region.len(),
                region.len() == region_len(entries@),
                block_len(entries@) <= usize::MAX,
                buf@.len() == region_end + 4 * k,
                buf@.subrange(0, region_end as int) == region,
                forall|j: int| 0 <= j < k ==> #[trigger] buf@.subrange(region_end + 4 * j, region_end + 4 * j + 4) == spec_u32_to_le_bytes(offsets@[j]),
            decreases n - k,
        {
            let ghost old_buf = buf@;
            let mut ob = u32_to_le_bytes(offsets[k]);
            buf.append(&mut ob);
            proof {
                assert(buf@.subrange(0, region_end as int) =~= old_buf.subrange(0, region_end as int));
                assert forall|j: int| 0 <= j < k + 1 implies #[trigger] buf@.subrange(region_end + 4 * j, region_end + 4 * j + 4) == spec_u32_to_le_bytes(offsets@[j]) by {
                    if j < k {
                        assert(buf@.subrange(region_end + 4 * j, region_end + 4 * j + 4) =~= old_buf.subrange(region_end + 4 * j, region_end + 4 * j + 4));
                    } else {
                        assert(buf@.subrange(region_end + 4 * j, region_end + 4 * j + 4) =~= spec_u32_to_le_bytes(offsets@[j]));
                    }
                }
            }
            k = k + 1;
        }
        #[verifier::truncate]
        let count: u32 = n as u32;
        let ghost before_count = buf@;
        let mut cb = u32_to_le_bytes(count);
        buf.append(&mut cb);
        proof {
            lemma_auto_spec_u32_to_from_le_bytes();
            let total = buf@.len();
            assert(buf@.subrange(total - 4, total as int) =~= spec_u32_to_le_bytes(count));
            if fits {
                assert(block_count(buf@) == n);
                assert(block_region_end(buf@) == region_end);
                assert(buf@.subrange(0, region_end as int) =~= region);
                assert forall|j: int| 0 <= j < n implies #[trigger] block_offset(buf@, j) == offsets@[j] as int by {
                    assert(buf@.subrange(region_end + 4 * j, region_end + 4 * j + 4) =~= before_count.subrange(region_end + 4 * j, region_end + 4 * j + 4));
                }
                assert forall|j: int| 0 <= j < n implies #[trigger] slot_ok(buf@.subrange(0, block_region_end(buf@)), block_offset(buf@, j)) by {
                    assert(block_offset(buf@, j) == starts[j]);
                    assert(slot_ok(region, starts[j]));
                }
                assert forall|j: int| 0 <= j < n implies #[trigger] block_entry(buf@, j) == Some(entry_view(entries@[j])) by {
                    assert(block_offset(buf@, j) == starts[j]);
                    assert(slot_ok(region, starts[j]));
                }
            }
        }
        buf
    }

    /// Splits an encoded block into its entry region and offsets; fewer than four
    /// bytes is reported as corruption.
    pub fn decode(data: &[u8]) -> (r: Result<Block, FlashStoreError>)
        requires
            data@.len() >= 4 ==> block_shape_ok(data@),
        ensures
            data@.len() < 4 ==> r matches Err(FlashStoreError::Corruption(_)),
            data@.len() >= 4 ==> (r matches Ok(b) && {
                &&& b.data@ == data@.subrange(0, block_region_end(data@))
                &&& b.offsets@.len() == block_count(data@)
                &&& forall|i: int| 0 <= i < block_count(data@) ==> #[trigger] b.offsets@[i] as int == block_offset(data@, i)
            }),
    {
        if data.len() < 4 {
            return Err(FlashStoreError::Corruption(String::from_str("block too short")));
        }
        let len = data.len();
        let num_offsets = u32_from_le_bytes(slice_subrange(data, len - 4, len)) as usize;
        let offsets_start = len - 4 - num_offsets * 4;
        let mut offsets: Vec<u32> = Vec::new();
        let mut i: usize = 0;
        while i < num_offsets
            invariant
                len == data@.len(),
                len >= 4,
                num_offsets == block_count(data@),
                offsets_start == block_region_end(data@),
                offsets_start + 4 * num_offsets + 4 == len,
                i <= num_offsets,
                offsets@.len() == i,
                forall|j: int| 0 <= j < i ==> #[trigger] offsets@[j] as int == block_offset(data@, j),
            decreases num_offsets - i,
        {
            let at = offsets_start + 4 * i;
            let o = u32_from_le_bytes(slice_subrange(data, at, at + 4));
            offsets.push(o);
            i = i + 1;
        }
        let region = slice_to_vec(slice_subrange(data, 0, offsets_start));
        Ok(Block { data: region, offsets })
    }

    /// The entry at `index`, or `None` past the last entry or when its slot does
    /// not read as an entry.
    pub fn get_entry(&self, index: usize) -> (r: Option<Entry>)
        requires
            index < self.offsets@.len() ==> slot_ok(self.data@, self.offsets@[index as int] as int),
        ensures
            index >= self.offsets@.len() ==> r is None,
            index < self.offsets@.len() ==> match r {
                Some(e) => entry_at(self.data@, self.offsets@[index as int] as int) == Some(entry_view(e)),
                None => entry_at(self.data@, self.offsets@[index as int] as int) is None,
            },
    {
        if index >= self.offsets.len() {
            return None;
        }
        let start = self.offsets[index] as usize;
        assert(start as int == self.offsets@[index as int] as int);
        assert(slot_ok(self.data@, start as int));
        let dlen = self.data.len();
        assert(start + 4 <= dlen);
        let len = u32_from_le_bytes(slice_subrange(self.data.as_slice(), start, start + 4)) as usize;
        assert(len as int == u32_at(self.data@, start as int));
        let bytes = slice_subrange(self.data.as_slice(), start + 4, start + 4 + len);
        match deserialize_entry(bytes) {
            Ok(t) => {
                let (key, value, tag, seq_no) = t;
                if tag == 0 {
                    Some(Entry { key, value, value_type: ValueType::Value, seq_no })
                } else if tag == 1 {
                    Some(Entry { key, value, value_type: ValueType::Tombstone, seq_no })
                } else {
                    None
                }
            },
            Err(_) => None,
        }
    }

    pub fn entries_len(&self) -> (r: usize)
        ensures
            r == self.offsets@.len(),
    {
        self.offsets.len()
    }

    /// Checks that every offset designates a slot inside the entry region.
    pub fn check_slots(&self) -> (r: bool)
        ensures
            r == self.slots_ok(),
    {
        let mut i: usize = 0;
        while i < self.offsets.len()
            invariant
                i <= self.offsets@.len(),
                forall|j: int| 0 <= j < i ==> #[trigger] slot_ok(self.data@, self.offsets@[j] as int),
            decreases self.offsets@.len() - i,
        {
            let start = self.offsets[i] as usize;
            assert(start as int == self.offsets@[i as int] as int);
            if self.data.len() < 4 || start > self.data.len() - 4 {
                assert(!slot_ok(self.data@, self.offsets@[i as int] as int));
                return false;
            }
            let len = u32_from_le_bytes(slice_subrange(self.data.as_slice(), start, start + 4)) as usize;
            assert(len as int == u32_at(self.data@, start as int));
            if len > self.data.len() - 4 - start {
                assert(!slot_ok(self.data@, self.offsets@[i as int] as int));
                return false;
            }
            i = i + 1;
        }
        true
    }
}

pub fn tag_of(t: ValueType) -> (r: u32)
    ensures
        r == type_tag(t),
{
    match t {
        ValueType::Value => 0,
        ValueType::Tombstone => 1,
    }
}

proof fn lemma_region_len_monotone(es: Seq<Entry>, a: int, b: int)
    requires
        0 <= a <= b <= es.len(),
    ensures
        region_len(es.take(a)) <= region_len(es.take(b)),
    decreases b - a,
{
    if a < b {
        lemma_region_len_step(es, b - 1);
        lemma_region_len_monotone(es, a, b - 1);
    }
}

/// A block reads back as what it was encoded from: for bytes laid out as
/// `Block::encode` lays out `es`, `Block::decode` accepts them (their shape
/// holds), finds `es.len()` offsets, and `Block::get_entry` at every position
/// finds a slot inside the entry region holding that position's entry; at
/// `es.len()` and beyond it finds nothing.
pub proof fn law_block_round_trip(bytes: Seq<u8>, es: Seq<Entry>)
    requires
        bytes.len() == block_len(es),
        block_shape_ok(bytes),
        block_count(bytes) == es.len(),
        block_slots_ok(bytes),
        forall|i: int| 0 <= i < es.len() ==> #[trigger] block_entry(bytes, i) == Some(entry_view(es[i])),
    ensures
        bytes.len() >= 4,
        block_count(bytes) == es.len(),
        forall|i: int| 0 <= i < es.len() ==> {
            &&& slot_ok(bytes.subrange(0, block_region_end(bytes)), #[trigger] block_offset(bytes, i))
            &&& entry_at(bytes.subrange(0, block_region_end(bytes)), block_offset(bytes, i)) == Some(entry_view(es[i]))
        },
{
    assert forall|i: int| 0 <= i < es.len() implies {
        &&& slot_ok(bytes.subrange(0, block_region_end(bytes)), #[trigger] block_offset(bytes, i))
        &&& entry_at(bytes.subrange(0, block_region_end(bytes)), block_offset(bytes, i)) == Some(entry_view(es[i]))
    } by {
        assert(block_entry(bytes, i) == Some(entry_view(es[i])));
        assert(slot_ok(bytes.subrange(0, block_region_end(bytes)), block_offset(bytes, i)));
    }
}

} // verus!
