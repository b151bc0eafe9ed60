//! Fixed 48-byte table footer: four `u64` LE fields, a reserved zero word, the magic number.
use vstd::prelude::*;
use vstd::bytes::*;
use vstd::slice::*;
use crate::error::FlashStoreError;

verus! {

pub const MAGIC_NUMBER: u64 = 0xF1A5_4570_7265_3031;
pub const FOOTER_SIZE: usize = 48;

/// Locations of the filter block and of the index block inside a table file.
#[derive(Debug, Clone, PartialEq, Eq, Structural)]
pub struct Footer {
    pub meta_index_offset: u64,
    pub meta_index_size: u64,
    pub index_offset: u64,
    pub index_size: u64,
    pub magic: u64,
}

/// The 8 bytes at `8 * i` read as a little-endian `u64`.
pub open spec fn word_at(data: Seq<u8>, i: int) -> u64 {
    spec_u64_from_le_bytes(data.subrange(8 * i, 8 * i + 8))
}

/// The footer that the first 48 bytes of `data` describe, if they do.
pub open spec fn footer_decode(data: Seq<u8>) -> Option<Footer> {
    if data.len() < 48 || word_at(data, 5) != MAGIC_NUMBER {
        None
    } else {
        Some(Footer {
            meta_index_offset: word_at(data, 0),
            meta_index_size: word_at(data, 1),
            index_offset: word_at(data, 2),
            index_size: word_at(data, 3),
            magic: word_at(data, 5),
        })
    }
}

pub open spec fn footer_bytes(f: Footer) -> Seq<u8> {
    spec_u64_to_le_bytes(f.meta_index_offset) + spec_u64_to_le_bytes(f.meta_index_size)
        + spec_u64_to_le_bytes(f.index_offset) + spec_u64_to_le_bytes(f.index_size)
        + spec_u64_to_le_bytes(0) + spec_u64_to_le_bytes(f.magic)
}

impl Footer {
    pub fn new(meta_index_offset: u64, meta_index_size: u64, index_offset: u64, index_size: u64) -> (f: Footer)
        ensures
            f == (Footer { meta_index_offset, meta_index_size, index_offset, index_size, magic: MAGIC_NUMBER }),
    {
        Footer { meta_index_offset, meta_index_size, index_offset, index_size, magic: MAGIC_NUMBER }
    }

    /// Writes the footer; a footer carrying the magic number decodes back to itself.
    pub fn encode(&self) -> (r: Vec<u8>)
        ensures
            r@ == footer_bytes(*self),
            r@.len() == FOOTER_SIZE,
            self.magic == MAGIC_NUMBER ==> footer_decode(r@) == Some(*self),
    {
        let mut buf = u64_to_le_bytes(self.meta_index_offset);
        let mut b1 = u64_to_le_bytes(self.meta_index_size);
        buf.append(&mut b1);
        let mut b2 = u64_to_le_bytes(self.index_offset);
        buf.append(&mut b2);
        let mut b3 = u64_to_le_bytes(self.index_size);
        buf.append(&mut b3);
        let mut b4 = u64_to_le_bytes(0);
        buf.append(&mut b4);
        let mut b5 = u64_to_le_bytes(self.magic);
        buf.append(&mut b5);
        proof {
            lemma_auto_spec_u64_to_from_le_bytes();
            assert(buf@ =~= footer_bytes(*self));
            assert(buf@.subrange(0, 8) =~= spec_u64_to_le_bytes(self.meta_index_offset));
            assert(buf@.subrange(8, 16) =~= spec_u64_to_le_bytes(self.meta_index_size));
            assert(buf@.subrange(16, 24) =~= spec_u64_to_le_bytes(self.index_offset));
            assert(buf@.subrange(24, 32) =~= spec_u64_to_le_bytes(self.index_size));
            assert(buf@.subrange(40, 48) =~= spec_u64_to_le_bytes(self.magic));
        }
        buf
    }

    /// Reads a footer from the first 48 bytes; a short input or a wrong magic
    /// number is reported as corruption.
    pub fn decode(data: &[u8]) -> (r: Result<Footer, FlashStoreError>)
        ensures
            r is Ok <==> footer_decode(data@) is Some,
            r matches Ok(f) ==> footer_decode(data@) == Some(f),
            r matches Err(e) ==> e is Corruption,
    {
        if data.len() < FOOTER_SIZE {
            return Err(FlashStoreError::Corruption(String::from_str("footer size too small")));
        }
        let meta_index_offset = u64_from_le_bytes(slice_subrange(data, 0, 8));
        let meta_index_size = u64_from_le_bytes(slice_subrange(data, 8, 16));
        let index_offset = u64_from_le_bytes(slice_subrange(data, 16, 24));
        let index_size = u64_from_le_bytes(slice_subrange(data, 24, 32));
        let magic = u64_from_le_bytes(slice_subrange(data, 40, 48));
        if magic != MAGIC_NUMBER {
            return Err(FlashStoreError::Corruption(String::from_str("invalid SSTable footer magic number")));
        }
        Ok(Footer { meta_index_offset, meta_index_size, index_offset, index_size, magic })
    }
}

} // verus!
