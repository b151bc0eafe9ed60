//! Bloom filter over the keys of a table, with double hashing on CRC-32.
//!
//! Layout: a bit array of `m` bytes followed by one byte holding the number of probes `k`.
use vstd::prelude::*;
use crate::crc::{crc32, crc32_of};
use crate::wire::key_views;

verus! {

/// Number of probes for a given number of bits per key: `bits_per_key * ln 2`
/// rounded to the nearest integer (ln 2 taken as 0.69314718056), kept within 1..=30.
pub open spec fn hash_count_for(bits_per_key: int) -> int {
    let r = (bits_per_key * 69314718056 + 50000000000) / 100000000000;
    if r < 1 { 1 } else if r > 30 { 30 } else { r }
}

/// Second hash of double hashing: the first hash rotated by 15 bits.
pub open spec fn hash_delta(h: u32) -> u32 {
    (h >> 17u32) | (h << 15u32)
}

/// The `j`-th probe hash: `h + j * delta` with 32-bit wrap-around.
pub open spec fn probe(h: u32, delta: u32, j: nat) -> u32
    decreases j,
{
    if j == 0 {
        h
    } else {
        probe(h, delta, (j - 1) as nat).wrapping_add(delta)
    }
}

/// Bit position of the `j`-th probe of `key` in a filter of `num_bits` bits.
pub open spec fn probe_bit(key: Seq<u8>, j: nat, num_bits: u32) -> int {
    (probe(crc32_of(key), hash_delta(crc32_of(key)), j) % num_bits) as int
}

pub open spec fn bit_is_set(f: Seq<u8>, pos: int) -> bool {
    f[pos / 8] & (1u8 << ((pos % 8) as u8)) != 0
}

/// Bit count of a filter, as the 32-bit truncation of eight times its array length.
pub open spec fn filter_num_bits(f: Seq<u8>) -> u32 {
    (((f.len() - 1) * 8) as int) as u32
}

/// Bytes of the bit array for `n` keys at `bits_per_key`: at least 64 bits,
/// rounded up to whole bytes.
pub open spec fn filter_bytes(n: int, bits_per_key: int) -> int {
    let bits = if n * bits_per_key < 64 { 64 } else { n * bits_per_key };
    (bits + 7) / 8
}

/// Bit `p` is one of the first `count` probes of `key`.
pub open spec fn key_probes(key: Seq<u8>, count: nat, num_bits: u32, p: int) -> bool {
    exists|j: nat| j < count && p == #[trigger] probe_bit(key, j, num_bits)
}

/// Bit `p` is one of the first `count` probes of some key of `keys`.
pub open spec fn keys_probe(keys: Seq<Seq<u8>>, count: nat, num_bits: u32, p: int) -> bool {
    exists|i: int| 0 <= i < keys.len() && #[trigger] key_probes(keys[i], count, num_bits, p)
}

proof fn lemma_bit_after_or(x: u8, s: u8, t: u8)
    requires
        s < 8,
        t < 8,
    ensures
        ((x | (1u8 << s)) & (1u8 << t) != 0) == ((x & (1u8 << t) != 0) || s == t),
{
    assert(((x | (1u8 << s)) & (1u8 << t) != 0) == ((x & (1u8 << t) != 0) || s == t)) by (bit_vector)
        requires
            s < 8,
            t < 8;
}

proof fn lemma_zero_byte_clear(t: u8)
    requires
        t < 8,
    ensures
        (0u8 & (1u8 << t)) == 0,
{
    assert((0u8 & (1u8 << t)) == 0) by (bit_vector);
}

/// A filter of one byte or less admits every key; otherwise a key is admitted
/// when all its probe bits are set.
pub open spec fn filter_admits(f: Seq<u8>, key: Seq<u8>) -> bool {
    f.len() <= 1 || forall|j: nat| j < f[f.len() - 1] ==> #[trigger] bit_is_set(f, probe_bit(key, j, filter_num_bits(f)))
}

/// The filter can be probed without dividing by zero.
pub open spec fn filter_probeable(f: Seq<u8>) -> bool {
    f.len() <= 1 || (filter_num_bits(f) != 0 && (f.len() - 1) * 8 <= usize::MAX)
}

proof fn lemma_bit_set_after_or(x: u8, s: u8)
    requires
        s < 8,
    ensures
        (x | (1u8 << s)) & (1u8 << s) != 0,
{
    assert((x | (1u8 << s)) & (1u8 << s) != 0) by (bit_vector)
        requires
            s < 8;
}

proof fn lemma_bit_kept_after_or(x: u8, y: u8, m: u8)
    requires
        x & m != 0,
    ensures
        (x | y) & m != 0,
{
    assert((x | y) & m != 0) by (bit_vector)
        requires
            x & m != 0;
}

proof fn lemma_hash_count_large(b: int)
    requires
        b >= 45,
    ensures
        (b * 69314718056 + 50000000000) / 100000000000 > 30,
{
    assert((b * 69314718056 + 50000000000) / 100000000000 > 30) by (nonlinear_arith)
        requires
            b >= 45;
}

/// Filter parameters: bits per key and the number of probes.
#[derive(Clone, Debug)]
pub struct BloomFilter {
    bits_per_key: usize,
    k_hashes: u32,
}

impl BloomFilter {
    pub closed spec fn spec_bits_per_key(self) -> usize {
        self.bits_per_key
    }

    pub closed spec fn spec_k_hashes(self) -> u32 {
        self.k_hashes
    }

    pub closed spec fn wf(self) -> bool {
        1 <= self.k_hashes <= 30
    }

    pub fn new(bits_per_key: usize) -> (f: BloomFilter)
        ensures
            f.wf(),
            f.spec_bits_per_key() == bits_per_key,
            f.spec_k_hashes() == hash_count_for(bits_per_key as int),
    {
        let k: u32 = if bits_per_key >= 45 {
            proof { lemma_hash_count_large(bits_per_key as int); }
            30
        } else {
            let b = bits_per_key as u64;
            let r = (b * 69314718056 + 50000000000) / 100000000000;
            if r < 1 { 1 } else if r > 30 { 30 } else { r as u32 }
        };
        BloomFilter { bits_per_key, k_hashes: k }
    }

    /// Builds the filter of a key set: a bit array of `filter_bytes` bytes in
    /// which exactly the probe bits of the keys are set, then the probe count.
    /// No key of the set is ever rejected by `may_contain` on the result.
    pub fn build_from_keys(&self, keys: &[Vec<u8>]) -> (r: Vec<u8>)
        requires
            self.wf(),
            keys@.len() * self.spec_bits_per_key() + 71 <= usize::MAX,
            keys@.len() > 0 ==> ({
                let bits = if keys@.len() * self.spec_bits_per_key() < 64 { 64 } else { keys@.len() * self.spec_bits_per_key() };
                (((bits + 7) / 8 * 8) as int) as u32 != 0
            }),
        ensures
            keys@.len() == 0 ==> r@.len() == 0,
            keys@.len() > 0 ==> r@.len() >= 9 && r@[r@.len() - 1] == self.spec_k_hashes(),
            keys@.len() > 0 ==> r@.len() == filter_bytes(keys@.len() as int, self.spec_bits_per_key() as int) + 1,
            keys@.len() > 0 ==> forall|p: int| 0 <= p < (r@.len() - 1) * 8 ==>
                (#[trigger] bit_is_set(r@, p) <==> keys_probe(key_views(keys@), self.spec_k_hashes() as nat, filter_num_bits(r@), p)),
            filter_probeable(r@),
            forall|i: int| 0 <= i < keys@.len() ==> filter_admits(r@, #[trigger] keys@[i]@),
    {
        if keys.len() == 0 {
            return Vec::new();
        }
        let mut bits = keys.len() * self.bits_per_key;
        if bits < 64 {
            bits = 64;
        }
        let bytes = (bits + 7) / 8;
        let mut filter: Vec<u8> = vec![0u8; bytes + 1];
        filter.set(bytes, self.k_hashes as u8);
        #[verifier::truncate]
        let num_bits: u32 = (bytes * 8) as u32;
        assert(num_bits == filter_num_bits(filter@));
        let k = self.k_hashes;
        proof {
            assert forall|p: int| 0 <= p < bytes * 8 implies
                !(#[trigger] bit_is_set(filter@, p)) && !keys_probe(key_views(keys@).take(0), k as nat, num_bits, p) by {
                assert(filter@[p / 8] == 0u8);
                lemma_zero_byte_clear((p % 8) as u8);
            }
        }
        let mut i: usize = 0;
        while i < keys.len()
            invariant
                filter@.len() == bytes + 1,
                bytes >= 8,
                num_bits == filter_num_bits(filter@),
                num_bits != 0,
                num_bits as int <= bytes * 8,
                filter@[bytes as int] == k as u8,
                k == self.k_hashes,
                1 <= k <= 30,
                i <= keys@.len(),
                forall|ii: int, j: nat| 0 <= ii < i && j < k ==> #[trigger] bit_is_set(filter@, probe_bit(keys@[ii]@, j, num_bits)),
                forall|p: int| 0 <= p < bytes * 8 ==>
                    (#[trigger] bit_is_set(filter@, p) <==> keys_probe(key_views(keys@).take(i as int), k as nat, num_bits, p)),
            decreases keys@.len() - i,
        {
            let key = &keys[i];
            let h0 = crc32(key.as_slice());
            let delta = (h0 >> 17) | (h0 << 15);
            let mut h = h0;
            let mut j: u32 = 0;
            let ghost start = filter@;
            while j < k
                invariant
                    filter@.len() == bytes + 1,
                    num_bits == filter_num_bits(filter@),
                    num_bits != 0,
                    num_bits as int <= bytes * 8,
                    filter@[bytes as int] == k as u8,
                    j <= k,
                    h0 == crc32_of(key@),
                    delta == hash_delta(h0),
                    h == probe(h0, delta, j as nat),
                    forall|p: int| 0 <= p < num_bits && bit_is_set(start, p) ==> #[trigger] bit_is_set(filter@, p),
                    forall|jj: nat| jj < j ==> #[trigger] bit_is_set(filter@, probe_bit(key@, jj, num_bits)),
                    forall|p: int| 0 <= p < bytes * 8 ==>
                        (#[trigger] bit_is_set(filter@, p) <==> (bit_is_set(start, p) || key_probes(key@, j as nat, num_bits, p))),
                decreases k - j,
            {
                let bit_pos = (h % num_bits) as usize;
                let idx = bit_pos / 8;
                let s = (bit_pos % 8) as u8;
                let ghost before = filter@;
                let old_byte = filter[idx];
                filter.set(idx, old_byte | (1u8 << s));
                proof {
                    lemma_bit_set_after_or(old_byte, s);
                    assert(bit_pos as int == probe_bit(key@, j as nat, num_bits));
                    assert forall|p: int| 0 <= p < num_bits && bit_is_set(before, p) implies #[trigger] bit_is_set(filter@, p) by {
                        if p / 8 == idx {
                            lemma_bit_kept_after_or(old_byte, 1u8 << s, 1u8 << ((p % 8) as u8));
                        }
                    }
                    assert forall|p: int| 0 <= p < num_bits && bit_is_set(start, p) implies #[trigger] bit_is_set(filter@, p) by {
                        assert(bit_is_set(before, p));
                    }
                    assert forall|jj: nat| jj < j + 1 implies #[trigger] bit_is_set(filter@, probe_bit(key@, jj, num_bits)) by {
                        if jj < j {
                            assert(bit_is_set(before, probe_bit(key@, jj, num_bits)));
                        }
                    }
                    assert forall|p: int| 0 <= p < bytes * 8 implies
                        (#[trigger] bit_is_set(filter@, p) <==> (bit_is_set(start, p) || key_probes(key@, (j + 1) as nat, num_bits, p))) by {
                        let t = (p % 8) as u8;
                        if p / 8 == idx as int {
                            lemma_bit_after_or(old_byte, s, t);
                            assert(filter@[p / 8] == old_byte | (1u8 << s));
                        } else {
                            assert(filter@[p / 8] == before[p / 8]);
                        }
                        assert(bit_is_set(before, p) <==> (bit_is_set(start, p) || key_probes(key@, j as nat, num_bits, p)));
                        if key_probes(key@, (j + 1) as nat, num_bits, p) {
                            let jj = choose|jj: nat| jj < j + 1 && p == #[trigger] probe_bit(key@, jj, num_bits);
                            if jj < j {
                                assert(key_probes(key@, j as nat, num_bits, p));
                            }
                        }
                        if key_probes(key@, j as nat, num_bits, p) {
                            let jj = choose|jj: nat| jj < j && p == #[trigger] probe_bit(key@, jj, num_bits);
                            assert(key_probes(key@, (j + 1) as nat, num_bits, p));
                        }
                        if p == bit_pos as int {
                            assert(key_probes(key@, (j + 1) as nat, num_bits, p));
                        }
                        if p / 8 == idx as int && t == s {
                            assert(p == bit_pos as int);
                        }
                    }
                }
                h = h.wrapping_add(delta);
                j = j + 1;
            }
            proof {
                let kv = key_views(keys@);
                assert(kv.take(i + 1) =~= kv.take(i as int).push(key@));
                assert forall|p: int| 0 <= p < bytes * 8 implies
                    (#[trigger] bit_is_set(filter@, p) <==> keys_probe(kv.take(i + 1), k as nat, num_bits, p)) by {
                    if keys_probe(kv.take(i + 1), k as nat, num_bits, p) {
                        let ii = choose|ii: int| 0 <= ii < kv.take(i + 1).len() && #[trigger] key_probes(kv.take(i + 1)[ii], k as nat, num_bits, p);
                        if ii < i {
                            assert(kv.take(i as int)[ii] == kv.take(i + 1)[ii]);
                            assert(keys_probe(kv.take(i as int), k as nat, num_bits, p));
                        }
                    }
                    if keys_probe(kv.take(i as int), k as nat, num_bits, p) {
                        let ii = choose|ii: int| 0 <= ii < kv.take(i as int).len() && #[trigger] key_probes(kv.take(i as int)[ii], k as nat, num_bits, p);
                        assert(kv.take(i + 1)[ii] == kv.take(i as int)[ii]);
                    }
                    if key_probes(key@, k as nat, num_bits, p) {
                        assert(kv.take(i + 1)[i as int] == key@);
                    }
                }
                assert forall|ii: int, jj: nat| 0 <= ii < i + 1 && jj < k implies #[trigger] bit_is_set(filter@, probe_bit(keys@[ii]@, jj, num_bits)) by {
                    if ii < i {
                        assert(bit_is_set(start, probe_bit(keys@[ii]@, jj, num_bits)));
                    }
                }
            }
            i = i + 1;
        }
        proof {
            assert(key_views(keys@).take(keys@.len() as int) =~= key_views(keys@));
            assert forall|ii: int| 0 <= ii < keys@.len() implies filter_admits(filter@, #[trigger] keys@[ii]@) by {
                assert forall|j: nat| j < filter@[filter@.len() - 1] implies #[trigger] bit_is_set(filter@, probe_bit(keys@[ii]@, j, filter_num_bits(filter@))) by {
                    assert(j < k);
                }
            }
        }
        filter
    }

    /// Probes a filter for a key: `false` only when some probe bit is clear.
    pub fn may_contain(filter: &[u8], key: &[u8]) -> (r: bool)
        requires
            filter_probeable(filter@),
        ensures
            r == filter_admits(filter@, key@),
    {
        if filter.len() <= 1 {
            return true;
        }
        let bytes_len = filter.len() - 1;
        let k = filter[bytes_len];
        #[verifier::truncate]
        let num_bits: u32 = (bytes_len * 8) as u32;
        assert(num_bits == filter_num_bits(filter@));
        let h0 = crc32(key);
        let delta = (h0 >> 17) | (h0 << 15);
        let mut h = h0;
        let mut j: u8 = 0;
        while j < k
            invariant
                filter@.len() == bytes_len + 1,
                k == filter@[filter@.len() - 1],
                num_bits == filter_num_bits(filter@),
                num_bits != 0,
                j <= k,
                h0 == crc32_of(key@),
                delta == hash_delta(h0),
                h == probe(h0, delta, j as nat),
                forall|jj: nat| jj < j ==> #[trigger] bit_is_set(filter@, probe_bit(key@, jj, num_bits)),
            decreases k - j,
        {
            let bit_pos = (h % num_bits) as usize;
            assert(bit_pos as int == probe_bit(key@, j as nat, num_bits));
            assert(bit_pos < bytes_len * 8) by {
                assert((bytes_len * 8) as int >= num_bits as int);
            }
            let s = (bit_pos % 8) as u8;
            if filter[bit_pos / 8] & (1u8 << s) == 0 {
                assert(!bit_is_set(filter@, probe_bit(key@, j as nat, filter_num_bits(filter@))));
                return false;
            }
            h = h.wrapping_add(delta);
            j = j + 1;
        }
        true
    }
}

} // verus!
