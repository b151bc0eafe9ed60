//! Identifiers and chunking settings of documents.
use vstd::prelude::*;

verus! {

/// Identifier of a document.
#[derive(Debug, Clone, PartialEq, Eq, PartialOrd, Ord, Hash)]
pub struct DocumentId(pub String);

impl DocumentId {
    pub fn new(id: &str) -> (r: DocumentId)
        ensures
            r.0@ == id@,
    {
        DocumentId(String::from_str(id))
    }

    pub fn as_str(&self) -> (r: &str)
        ensures
            r@ == self.0@,
    {
        self.0.as_str()
    }

    /// The identifier as an owned string.
    pub fn to_string(&self) -> (r: String)
        ensures
            r@ == self.0@,
    {
        String::from_str(self.0.as_str())
    }
}

impl core::ops::Deref for DocumentId {
    type Target = str;

    fn deref(&self) -> (r: &str)
        ensures
            r@ == self.0@,
    {
        self.0.as_str()
    }
}

impl From<&str> for DocumentId {
    fn from(id: &str) -> (r: DocumentId)
        ensures
            r.0@ == id@,
    {
        DocumentId::new(id)
    }
}

/// Conversions from text are not modelled as a spec function: the identifier's
/// string is only known by its characters.
impl vstd::std_specs::convert::FromSpecImpl<&str> for DocumentId {
    open spec fn obeys_from_spec() -> bool {
        false
    }

    open spec fn from_spec(v: &str) -> DocumentId {
        vstd::pervasive::arbitrary()
    }
}

impl From<DocumentId> for String {
    fn from(id: DocumentId) -> (r: String) {
        id.0
    }
}

impl vstd::std_specs::convert::FromSpecImpl<DocumentId> for String {
    open spec fn obeys_from_spec() -> bool {
        true
    }

    open spec fn from_spec(v: DocumentId) -> String {
        v.0
    }
}

impl AsRef<str> for DocumentId {
    fn as_ref(&self) -> (r: &str)
        ensures
            r@ == self.0@,
    {
        self.0.as_str()
    }
}

/// How a document is cut into chunks.
#[derive(Debug, Clone, Copy, PartialEq, Eq, Structural)]
pub enum ChunkingStrategy {
    /// Windows of `size` characters, consecutive windows sharing `overlap`.
    FixedChars { size: usize, overlap: usize },
    /// Windows of `size` words, consecutive windows sharing `overlap`.
    FixedTokens { size: usize, overlap: usize },
    /// Paragraphs separated by blank lines.
    Paragraph,
    /// Sentences ended by punctuation or line breaks.
    Sentence,
}

/// Chunking strategy and the least length a chunk must reach.
#[derive(Debug, Clone, Copy, PartialEq, Eq, Structural)]
pub struct ChunkingConfig {
    pub strategy: ChunkingStrategy,
    pub min_chunk_size: usize,
}

impl Default for ChunkingConfig {
    fn default() -> (r: ChunkingConfig)
        ensures
            r == (ChunkingConfig { strategy: ChunkingStrategy::FixedTokens { size: 256, overlap: 32 }, min_chunk_size: 20 }),
    {
        ChunkingConfig { strategy: ChunkingStrategy::FixedTokens { size: 256, overlap: 32 }, min_chunk_size: 20 }
    }
}

} // verus!
