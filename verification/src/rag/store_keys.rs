//! Keys under which the retrieval layer stores documents in the key-value store.
use vstd::prelude::*;
use vstd::slice::{slice_subrange, slice_to_vec};
use vstd::string::{StringExecFns, StringSliceAdditionalSpecFns};
use vstd::utf8::encode_utf8;
use crate::sstable::naming::{decimal, push_decimal};

verus! {

fn key_bytes(s: String) -> (r: Vec<u8>)
    ensures
        r@ == encode_utf8(s@),
{
    slice_to_vec(s.as_str().as_bytes())
}

/// The key of a document's text: `rag:doc:` and the identifier.
pub fn doc_key(doc_id: &str) -> (r: Vec<u8>)
    ensures
        r@ == encode_utf8("rag:doc:"@ + doc_id@),
{
    let mut s = String::from_str("rag:doc:");
    s.append(doc_id);
    key_bytes(s)
}

/// The key of a document's embedding: `rag:vec:` and the identifier.
pub fn vec_key(doc_id: &str) -> (r: Vec<u8>)
    ensures
        r@ == encode_utf8("rag:vec:"@ + doc_id@),
{
    let mut s = String::from_str("rag:vec:");
    s.append(doc_id);
    key_bytes(s)
}

/// The key of a document's metadata: `rag:meta:` and the identifier.
pub fn meta_key(doc_id: &str) -> (r: Vec<u8>)
    ensures
        r@ == encode_utf8("rag:meta:"@ + doc_id@),
{
    let mut s = String::from_str("rag:meta:");
    s.append(doc_id);
    key_bytes(s)
}

/// The start shared by the keys of a document's chunks: `rag:chunk:`, the
/// identifier and `:`.
pub fn chunk_prefix(doc_id: &str) -> (r: Vec<u8>)
    ensures
        r@ == encode_utf8("rag:chunk:"@ + doc_id@ + ":"@),
{
    let mut s = String::from_str("rag:chunk:");
    s.append(doc_id);
    s.append(":");
    key_bytes(s)
}

/// The key of chunk `chunk_index` of a document: its chunk prefix and the
/// index in decimal.
pub fn chunk_key(doc_id: &str, chunk_index: usize) -> (r: Vec<u8>)
    ensures
        r@ == encode_utf8("rag:chunk:"@ + doc_id@ + ":"@ + decimal(chunk_index as nat)),
{
    let mut s = String::from_str("rag:chunk:");
    s.append(doc_id);
    s.append(":");
    push_decimal(chunk_index as u64, &mut s);
    key_bytes(s)
}

/// Whether `key` begins with `prefix`.
pub open spec fn has_prefix(key: Seq<u8>, prefix: Seq<u8>) -> bool {
    prefix.len() <= key.len() && key.subrange(0, prefix.len() as int) == prefix
}

/// Whether `key` begins with `prefix`.
pub fn starts_with(key: &[u8], prefix: &[u8]) -> (r: bool)
    ensures
        r == has_prefix(key@, prefix@),
{
    if prefix.len() > key.len() {
        return false;
    }
    let mut i: usize = 0;
    while i < prefix.len()
        invariant
            prefix@.len() <= key@.len(),
            i <= prefix@.len(),
            forall|j: int| 0 <= j < i ==> key@[j] == prefix@[j],
        decreases prefix@.len() - i,
    {
        if key[i] != prefix[i] {
            assert(key@.subrange(0, prefix@.len() as int)[i as int] != prefix@[i as int]);
            return false;
        }
        i = i + 1;
    }
    assert(key@.subrange(0, prefix@.len() as int) =~= prefix@);
    true
}

/// The rows of `rows` before the first whose key does not begin with `prefix`:
/// of a scan that starts at `prefix`, the rows that lie under it.
pub fn rows_with_prefix(rows: Vec<(Vec<u8>, Vec<u8>)>, prefix: &[u8]) -> (r: Vec<(Vec<u8>, Vec<u8>)>)
    ensures
        r@.len() <= rows@.len(),
        r@ == rows@.subrange(0, r@.len() as int),
        forall|i: int| 0 <= i < r@.len() ==> has_prefix(#[trigger] rows@[i].0@, prefix@),
        r@.len() < rows@.len() ==> !has_prefix(rows@[r@.len() as int].0@, prefix@),
{
    let mut n: usize = 0;
    while n < rows.len()
        invariant
            n <= rows@.len(),
            forall|i: int| 0 <= i < n ==> has_prefix(#[trigger] rows@[i].0@, prefix@),
        ensures
            n <= rows@.len(),
            forall|i: int| 0 <= i < n ==> has_prefix(#[trigger] rows@[i].0@, prefix@),
            n < rows@.len() ==> !has_prefix(rows@[n as int].0@, prefix@),
        decreases rows@.len() - n,
    {
        if !starts_with(rows[n].0.as_slice(), prefix) {
            break;
        }
        n = n + 1;
    }
    let mut rows = rows;
    rows.truncate(n);
    rows
}

/// The bytes that begin the key of a document's text.
pub open spec fn text_prefix() -> Seq<u8> {
    encode_utf8("rag:doc:"@)
}

/// The bytes that begin the key of a document's embedding.
pub open spec fn vector_prefix() -> Seq<u8> {
    encode_utf8("rag:vec:"@)
}

/// The bytes that begin the key of a document's metadata.
pub open spec fn meta_prefix() -> Seq<u8> {
    encode_utf8("rag:meta:"@)
}

/// The bytes that begin the key of a chunk.
pub open spec fn chunk_start() -> Seq<u8> {
    encode_utf8("rag:chunk:"@)
}

/// What a stored key of the retrieval layer holds.
pub enum StoredKey {
    /// A document's text, under the identifier that follows the prefix.
    DocText(Vec<u8>),
    /// A document's embedding, under the identifier that follows the prefix.
    DocVector(Vec<u8>),
    /// A document's metadata, under the identifier that follows the prefix.
    DocMeta(Vec<u8>),
    /// One chunk of a document.
    Chunk,
    /// Anything else.
    Other,
}

/// Tells the kind of a stored key by its prefix, tried in the order text,
/// embedding, metadata, chunk; for the first three, with the identifier's bytes.
pub fn classify_key(key: &[u8]) -> (r: StoredKey)
    ensures
        match r {
            StoredKey::DocText(id) => has_prefix(key@, text_prefix())
                && id@ == key@.subrange(text_prefix().len() as int, key@.len() as int),
            StoredKey::DocVector(id) => !has_prefix(key@, text_prefix()) && has_prefix(key@, vector_prefix())
                && id@ == key@.subrange(vector_prefix().len() as int, key@.len() as int),
            StoredKey::DocMeta(id) => !has_prefix(key@, text_prefix()) && !has_prefix(key@, vector_prefix())
                && has_prefix(key@, meta_prefix())
                && id@ == key@.subrange(meta_prefix().len() as int, key@.len() as int),
            StoredKey::Chunk => !has_prefix(key@, text_prefix()) && !has_prefix(key@, vector_prefix())
                && !has_prefix(key@, meta_prefix()) && has_prefix(key@, chunk_start()),
            StoredKey::Other => !has_prefix(key@, text_prefix()) && !has_prefix(key@, vector_prefix())
                && !has_prefix(key@, meta_prefix()) && !has_prefix(key@, chunk_start()),
        },
{
    let text = "rag:doc:".as_bytes();
    let vector = "rag:vec:".as_bytes();
    let meta = "rag:meta:".as_bytes();
    let chunk = "rag:chunk:".as_bytes();
    if starts_with(key, text) {
        StoredKey::DocText(slice_to_vec(slice_subrange(key, text.len(), key.len())))
    } else if starts_with(key, vector) {
        StoredKey::DocVector(slice_to_vec(slice_subrange(key, vector.len(), key.len())))
    } else if starts_with(key, meta) {
        StoredKey::DocMeta(slice_to_vec(slice_subrange(key, meta.len(), key.len())))
    } else if starts_with(key, chunk) {
        StoredKey::Chunk
    } else {
        StoredKey::Other
    }
}

} // verus!
