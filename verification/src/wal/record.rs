//! One framed log record: `[crc32 u32 LE][length u32 LE][payload]`.
use vstd::prelude::*;
use vstd::bytes::*;
use vstd::slice::*;
use crate::crc::{crc32, crc32_of};
use crate::wire::{bincode_record_bytes, bincode_record_parse, serialize_record, deserialize_record};
use crate::error::FlashStoreError;

verus! {

/// A logged mutation: a put, or a delete when `is_delete` holds.
#[derive(Debug, Clone)]
pub struct WalRecord {
    pub key: Vec<u8>,
    pub value: Vec<u8>,
    pub is_delete: bool,
    pub seq_no: u64,
}

/// Abstract record: key, value, delete flag, sequence number.
pub type RecordView = (Seq<u8>, Seq<u8>, bool, u64);

/// Frame around a payload: its checksum, its length, then the payload itself.
pub open spec fn wal_frame(payload: Seq<u8>) -> Seq<u8> {
    spec_u32_to_le_bytes(crc32_of(payload)) + spec_u32_to_le_bytes(payload.len() as u32) + payload
}

/// Payload length announced by a frame header.
pub open spec fn frame_len(data: Seq<u8>) -> int {
    spec_u32_from_le_bytes(data.subrange(4, 8)) as int
}

/// Checksum announced by a frame header.
pub open spec fn frame_crc(data: Seq<u8>) -> u32 {
    spec_u32_from_le_bytes(data.subrange(0, 4))
}

/// The header is complete and the announced payload is present.
pub open spec fn frame_complete(data: Seq<u8>) -> bool {
    data.len() >= 8 && data.len() - 8 >= frame_len(data)
}

pub open spec fn frame_payload(data: Seq<u8>) -> Seq<u8> {
    data.subrange(8, 8 + frame_len(data))
}

/// The header is complete, the payload present and its checksum matches.
pub open spec fn frame_checked(data: Seq<u8>) -> bool {
    frame_complete(data) && crc32_of(frame_payload(data)) == frame_crc(data)
}

/// The record a frame holds, if it holds one.
pub open spec fn wal_decode(data: Seq<u8>) -> Option<RecordView> {
    if frame_checked(data) {
        bincode_record_parse(frame_payload(data))
    } else {
        None
    }
}

impl WalRecord {
    pub open spec fn view_tuple(self) -> RecordView {
        (self.key@, self.value@, self.is_delete, self.seq_no)
    }

    pub open spec fn payload(self) -> Seq<u8> {
        bincode_record_bytes(self.key@, self.value@, self.is_delete, self.seq_no)
    }

    /// Length of the payload as an integer.
    pub open spec fn payload_len(self) -> int {
        (self.key@.len() + self.value@.len() + 25) as int
    }

    /// Encodes the record as a frame around its bincode payload. When the payload
    /// length fits the 32-bit length field, decoding the frame gives the record back.
    pub fn encode(&self) -> (r: Vec<u8>)
        requires
            self.payload_len() + 8 <= usize::MAX,
        ensures
            r@ == wal_frame(self.payload()),
            r@.len() == self.payload_len() + 8,
            self.payload_len() <= u32::MAX ==> wal_decode(r@) == Some(self.view_tuple()),
            self.payload_len() <= u32::MAX ==> frame_len(r@) + 8 == r@.len(),
    {
        let payload = serialize_record(self.key.as_slice(), self.value.as_slice(), self.is_delete, self.seq_no);
        let checksum = crc32(payload.as_slice());
        let ghost p = payload@;
        let mut buf = u32_to_le_bytes(checksum);
        #[verifier::truncate]
        let n: u32 = payload.len() as u32;
        let mut len_bytes = u32_to_le_bytes(n);
        buf.append(&mut len_bytes);
        let mut payload = payload;
        buf.append(&mut payload);
        proof {
            lemma_auto_spec_u32_to_from_le_bytes();
            assert(buf@ =~= wal_frame(p));
            if self.payload_len() <= u32::MAX {
                assert(buf@.subrange(0, 4) =~= spec_u32_to_le_bytes(crc32_of(p)));
                assert(buf@.subrange(4, 8) =~= spec_u32_to_le_bytes(n));
                assert(frame_payload(buf@) =~= p);
            }
        }
        buf
    }

    /// Decodes one frame: reports a short header or a short payload as a log
    /// error, a checksum mismatch as corruption, an unreadable payload as a log error.
    pub fn decode(data: &[u8]) -> (r: Result<WalRecord, FlashStoreError>)
        ensures
            r is Ok <==> wal_decode(data@) is Some,
            r matches Ok(rec) ==> wal_decode(data@) == Some(rec.view_tuple()),
            r matches Ok(rec) ==> rec.payload_len() + 8 <= data@.len(),
            !frame_complete(data@) ==> r matches Err(FlashStoreError::WalError(_)),
            frame_complete(data@) && !frame_checked(data@) ==> r matches Err(FlashStoreError::Corruption(_)),
            frame_checked(data@) && bincode_record_parse(frame_payload(data@)) is None
                ==> r matches Err(FlashStoreError::WalError(_)),
    {
        if data.len() < 8 {
            return Err(FlashStoreError::WalError(String::from_str("insufficient data for header")));
        }
        let checksum = u32_from_le_bytes(slice_subrange(data, 0, 4));
        let length = u32_from_le_bytes(slice_subrange(data, 4, 8)) as usize;
        if data.len() - 8 < length {
            return Err(FlashStoreError::WalError(String::from_str("payload length mismatch")));
        }
        let payload = slice_subrange(data, 8, 8 + length);
        if crc32(payload) != checksum {
            return Err(FlashStoreError::Corruption(String::from_str("WAL checksum mismatch")));
        }
        match deserialize_record(payload) {
            Ok(t) => {
                let (key, value, is_delete, seq_no) = t;
                Ok(WalRecord { key, value, is_delete, seq_no })
            },
            Err(msg) => Err(FlashStoreError::WalError(msg)),
        }
    }
}

} // verus!
