//! Ingestion reports and the hashing of the test embedding provider.
use vstd::prelude::*;
use vstd::string::StringSliceAdditionalSpecFns;

verus! {

/// Counts of one ingestion run.
#[derive(Debug, Clone, Copy, PartialEq, Eq, Structural)]
pub struct IngestReport {
    pub docs_ingested: usize,
    pub chunks_created: usize,
    pub total_chars: usize,
    pub elapsed_ms: u64,
}

pub const FNV_OFFSET: u64 = 0xcbf29ce484222325;
pub const FNV_PRIME: u64 = 0x100000001b3;

/// FNV-1a over `bytes`: for each byte, xor it in, then multiply by the prime modulo 2^64.
pub open spec fn fnv1a(bytes: Seq<u8>) -> u64
    decreases bytes.len(),
{
    if bytes.len() == 0 {
        FNV_OFFSET
    } else {
        let h = fnv1a(bytes.drop_last()) ^ (bytes.last() as u64);
        ((h as nat * FNV_PRIME as nat) % 0x1_0000_0000_0000_0000) as u64
    }
}

/// Embedding provider for tests: hashes words into a vector of `dim` entries.
pub struct MockEmbeddingProvider {
    pub dim: usize,
}

impl MockEmbeddingProvider {
    /// A provider of `dim`-dimensional vectors; the dimension must be positive.
    pub fn new(dim: usize) -> (r: MockEmbeddingProvider)
        requires
            dim > 0,
        ensures
            r.dim == dim,
    {
        MockEmbeddingProvider { dim }
    }

    /// The FNV-1a hash of the token's bytes.
    pub fn hash_token(token: &str) -> (r: u64)
        ensures
            r == fnv1a(token.spec_bytes()),
    {
        let bytes = token.as_bytes();
        let mut hash: u64 = FNV_OFFSET;
        let mut i: usize = 0;
        while i < bytes.len()
            invariant
                i <= bytes@.len(),
                bytes@ == token.spec_bytes(),
                hash == fnv1a(bytes@.take(i as int)),
            decreases bytes@.len() - i,
        {
            proof {
                assert(bytes@.take(i + 1).drop_last() =~= bytes@.take(i as int));
                assert(bytes@.take(i + 1).last() == bytes@[i as int]);
            }
            hash = (hash ^ (bytes[i] as u64)).wrapping_mul(FNV_PRIME);
            i = i + 1;
        }
        assert(bytes@.take(bytes@.len() as int) =~= bytes@);
        hash
    }
}

} // verus!
