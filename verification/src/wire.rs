//! Payload encodings produced and read by the `bincode` crate (fixed-width
//! integers, little endian, lengths as `u64`).
use vstd::prelude::*;

verus! {

/// Bytes `bincode::serialize` writes for the tuple `(key, value, is_delete, seq_no)`.
pub uninterp spec fn bincode_record_bytes(key: Seq<u8>, value: Seq<u8>, is_delete: bool, seq_no: u64) -> Seq<u8>;

/// What `bincode::deserialize` reads from `data` as a tuple `(key, value, is_delete, seq_no)`.
pub uninterp spec fn bincode_record_parse(data: Seq<u8>) -> Option<(Seq<u8>, Seq<u8>, bool, u64)>;

/// Calls `bincode::serialize` on `(key, value, is_delete, seq_no)`. Claims the
/// result is the named encoding, whose length is the two length prefixes (8
/// bytes each), the key and value bytes, one byte for the flag and eight for the
/// sequence number, as bincode's fixed-int format writes them, and that
/// `bincode::deserialize` reads these bytes back as the same tuple.
#[verifier::external_body]
pub(crate) fn serialize_record(key: &[u8], value: &[u8], is_delete: bool, seq_no: u64) -> (r: Vec<u8>)
    ensures
        r@ == bincode_record_bytes(key@, value@, is_delete, seq_no),
        r@.len() == key@.len() + value@.len() + 25,
        bincode_record_parse(r@) == Some((key@, value@, is_delete, seq_no)),
{
    match bincode::serialize(&(key, value, is_delete, seq_no)) {
        Ok(v) => v,
        Err(_) => Vec::new(),
    }
}

/// Calls `bincode::deserialize::<(Vec<u8>, Vec<u8>, bool, u64)>`. Claims the
/// result is the named parse of the bytes, and that a successful read consumed
/// the two 8-byte length prefixes, the key and value bytes, the flag byte and the
/// 8-byte sequence number from the input (trailing bytes are allowed, so the
/// input is at least that long); the error text is bincode's own and nothing is
/// claimed of it.
#[verifier::external_body]
pub(crate) fn deserialize_record(data: &[u8]) -> (r: Result<(Vec<u8>, Vec<u8>, bool, u64), String>)
    ensures
        r is Ok <==> bincode_record_parse(data@) is Some,
        r matches Ok(t) ==> bincode_record_parse(data@) == Some((t.0@, t.1@, t.2, t.3)),
        r matches Ok(t) ==> t.0@.len() + t.1@.len() + 25 <= data@.len(),
{
    match bincode::deserialize::<(Vec<u8>, Vec<u8>, bool, u64)>(data) {
        Ok(t) => Ok(t),
        Err(e) => Err(e.to_string()),
    }
}

} // verus!

verus! {

/// Bytes `bincode::serialize` writes for an entry `(key, value, type_tag, seq_no)`,
/// the tag being the index of the entry type's variant.
pub uninterp spec fn bincode_entry_bytes(key: Seq<u8>, value: Seq<u8>, tag: u32, seq_no: u64) -> Seq<u8>;

/// What `bincode::deserialize` reads from `data` as `(key, value, type_tag, seq_no)`.
pub uninterp spec fn bincode_entry_parse(data: Seq<u8>) -> Option<(Seq<u8>, Seq<u8>, u32, u64)>;

/// Calls `bincode::serialize` on `(key, value, tag, seq_no)`. Claims the result is
/// the named encoding, 28 bytes longer than key and value together (two 8-byte
/// length prefixes, a 4-byte tag, an 8-byte sequence number), and that
/// `bincode::deserialize` reads it back as the same tuple.
#[verifier::external_body]
pub(crate) fn serialize_entry(key: &[u8], value: &[u8], tag: u32, seq_no: u64) -> (r: Vec<u8>)
    ensures
        r@ == bincode_entry_bytes(key@, value@, tag, seq_no),
        r@.len() == key@.len() + value@.len() + 28,
        bincode_entry_parse(r@) == Some((key@, value@, tag, seq_no)),
{
    match bincode::serialize(&(key, value, tag, seq_no)) {
        Ok(v) => v,
        Err(_) => Vec::new(),
    }
}

/// Calls `bincode::deserialize::<(Vec<u8>, Vec<u8>, u32, u64)>`. Claims the result
/// is the named parse of the bytes; nothing is claimed of the error text.
#[verifier::external_body]
pub(crate) fn deserialize_entry(data: &[u8]) -> (r: Result<(Vec<u8>, Vec<u8>, u32, u64), String>)
    ensures
        r is Ok <==> bincode_entry_parse(data@) is Some,
        r matches Ok(t) ==> bincode_entry_parse(data@) == Some((t.0@, t.1@, t.2, t.3)),
{
    match bincode::deserialize::<(Vec<u8>, Vec<u8>, u32, u64)>(data) {
        Ok(t) => Ok(t),
        Err(e) => Err(e.to_string()),
    }
}

} // verus!

verus! {

/// Bytes `bincode::serialize` writes for the index pair `(first_keys, block_offsets)`.
pub uninterp spec fn bincode_index_bytes(first_keys: Seq<Seq<u8>>, offsets: Seq<u64>) -> Seq<u8>;

/// What `bincode::deserialize` reads from `data` as `(Vec<Vec<u8>>, Vec<u64>)`.
pub uninterp spec fn bincode_index_parse(data: Seq<u8>) -> Option<(Seq<Seq<u8>>, Seq<u64>)>;

pub open spec fn key_views(keys: Seq<Vec<u8>>) -> Seq<Seq<u8>> {
    keys.map_values(|k: Vec<u8>| k@)
}

/// Calls `bincode::serialize` on `(first_keys, offsets)`. Claims the result is the
/// named encoding and that `bincode::deserialize` reads it back as the same pair.
#[verifier::external_body]
pub(crate) fn serialize_index(first_keys: &Vec<Vec<u8>>, offsets: &Vec<u64>) -> (r: Vec<u8>)
    ensures
        r@ == bincode_index_bytes(key_views(first_keys@), offsets@),
        bincode_index_parse(r@) == Some((key_views(first_keys@), offsets@)),
{
    match bincode::serialize(&(first_keys, offsets)) {
        Ok(v) => v,
        Err(_) => Vec::new(),
    }
}

/// Calls `bincode::deserialize::<(Vec<Vec<u8>>, Vec<u64>)>`. Claims the result is
/// the named parse of the bytes; nothing is claimed of the error text.
#[verifier::external_body]
pub(crate) fn deserialize_index(data: &[u8]) -> (r: Result<(Vec<Vec<u8>>, Vec<u64>), String>)
    ensures
        r is Ok <==> bincode_index_parse(data@) is Some,
        r matches Ok(t) ==> bincode_index_parse(data@) == Some((key_views(t.0@), t.1@)),
{
    match bincode::deserialize::<(Vec<Vec<u8>>, Vec<u64>)>(data) {
        Ok(t) => Ok(t),
        Err(e) => Err(e.to_string()),
    }
}

} // verus!

verus! {

/// A table file as plain values: number, size, smallest key, largest key.
pub type RawFile = (u64, u64, Vec<u8>, Vec<u8>);

pub open spec fn raw_files_view(s: Seq<(usize, RawFile)>) -> Seq<(usize, (u64, u64, Seq<u8>, Seq<u8>))> {
    s.map_values(|p: (usize, RawFile)| (p.0, (p.1.0, p.1.1, p.1.2@, p.1.3@)))
}

/// Bytes `bincode::serialize` writes for a version edit, taken as the tuple
/// `(next_file_number, last_sequence, new_files, deleted_files)`.
pub uninterp spec fn bincode_edit_bytes(
    next: Option<u64>,
    last: Option<u64>,
    new_files: Seq<(usize, (u64, u64, Seq<u8>, Seq<u8>))>,
    deleted: Seq<(usize, u64)>,
) -> Seq<u8>;

/// What `bincode::deserialize` reads from `data` as a version edit tuple.
pub uninterp spec fn bincode_edit_parse(data: Seq<u8>) -> Option<(Option<u64>, Option<u64>, Seq<(usize, (u64, u64, Seq<u8>, Seq<u8>))>, Seq<(usize, u64)>)>;

/// Calls `bincode::serialize` on the edit tuple. Claims the result is the named
/// encoding and that `bincode::deserialize` reads it back as the same tuple.
#[verifier::external_body]
pub(crate) fn serialize_edit(
    next: Option<u64>,
    last: Option<u64>,
    new_files: &Vec<(usize, RawFile)>,
    deleted: &Vec<(usize, u64)>,
) -> (r: Vec<u8>)
    ensures
        r@ == bincode_edit_bytes(next, last, raw_files_view(new_files@), deleted@),
        bincode_edit_parse(r@) == Some((next, last, raw_files_view(new_files@), deleted@)),
{
    match bincode::serialize(&(next, last, new_files, deleted)) {
        Ok(v) => v,
        Err(_) => Vec::new(),
    }
}

/// Calls `bincode::deserialize` for the edit tuple. Claims the result is the named
/// parse of the bytes; nothing is claimed of the error text.
#[verifier::external_body]
pub(crate) fn deserialize_edit(data: &[u8]) -> (r: Result<(Option<u64>, Option<u64>, Vec<(usize, RawFile)>, Vec<(usize, u64)>), String>)
    ensures
        r is Ok <==> bincode_edit_parse(data@) is Some,
        r matches Ok(t) ==> bincode_edit_parse(data@) == Some((t.0, t.1, raw_files_view(t.2@), t.3@)),
{
    match bincode::deserialize::<(Option<u64>, Option<u64>, Vec<(usize, RawFile)>, Vec<(usize, u64)>)>(data) {
        Ok(t) => Ok(t),
        Err(e) => Err(e.to_string()),
    }
}

} // verus!
