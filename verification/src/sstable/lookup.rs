//! Point lookups in a table image written by the builder: the block the index
//! points a key to holds the key's entry whenever the table holds one.
use vstd::prelude::*;
use crate::keys::{lex_lt, lex_le, lemma_lex_trans, lemma_lex_irrefl};
use crate::sstable::block::EntryView;
use crate::sstable::bloom::filter_admits;
use crate::sstable::reader::{table_wf, table_contents, table_footer, tbl_index, tbl_filter, tbl_block_read,
    tbl_scan_upto, first_with_key, lookup_answer, strictly_sorted, split_point, block_for};

verus! {

/// Every key of block `b` lies at or above the block's index key and below the
/// next block's index key.
pub open spec fn block_keys_within(es: Seq<EntryView>, ks: Seq<Seq<u8>>, b: int) -> bool {
    forall|i: int| 0 <= i < es.len() ==> lex_le(ks[b], #[trigger] es[i].0) && (b + 1 < ks.len() ==> lex_lt(es[i].0, ks[b + 1]))
}

/// A table image laid out as the builder writes one from keys in ascending
/// order: it reads without a fault, its index keys ascend strictly with one per
/// block, every block reads and holds only keys in its index range, and the
/// filter admits every key the table holds.
pub open spec fn table_sound(t: Seq<u8>) -> bool {
    let ks = tbl_index(t).0;
    let offs = tbl_index(t).1;
    let mio = table_footer(t)->0.meta_index_offset;
    &&& table_wf(t)
    &&& ks.len() == offs.len()
    &&& strictly_sorted(ks)
    &&& forall|b: int| 0 <= b < offs.len() ==> (#[trigger] tbl_block_read(t, offs, mio, b) matches Some(es)
        && block_keys_within(es, ks, b))
    &&& table_contents(t) is Some
    &&& forall|i: int| 0 <= i < table_contents(t)->0.len() ==> filter_admits(tbl_filter(t), #[trigger] table_contents(t)->0[i].0)
}

/// What a table answers for `key`: the value or deletion of its first entry
/// carrying the key, or nothing.
pub open spec fn table_answer(t: Seq<u8>, key: Seq<u8>) -> Option<Option<Seq<u8>>> {
    lookup_answer(first_with_key(table_contents(t)->0, key))
}

pub proof fn lemma_first_with_key_absent(es: Seq<EntryView>, key: Seq<u8>)
    requires
        forall|i: int| 0 <= i < es.len() ==> (#[trigger] es[i]).0 != key,
    ensures
        first_with_key(es, key) is None,
    decreases es.len(),
{
    if es.len() > 0 {
        assert(es[0].0 != key);
        assert forall|i: int| 0 <= i < es.drop_first().len() implies (#[trigger] es.drop_first()[i]).0 != key by {
            assert(es.drop_first()[i] == es[i + 1]);
        }
        lemma_first_with_key_absent(es.drop_first(), key);
    }
}

pub proof fn lemma_first_with_key_present(es: Seq<EntryView>, key: Seq<u8>)
    ensures
        first_with_key(es, key) is Some ==> exists|i: int| 0 <= i < es.len() && (#[trigger] es[i]).0 == key,
    decreases es.len(),
{
    if es.len() > 0 && es[0].0 != key {
        lemma_first_with_key_present(es.drop_first(), key);
        if first_with_key(es, key) is Some {
            let i = choose|i: int| 0 <= i < es.drop_first().len() && (#[trigger] es.drop_first()[i]).0 == key;
            assert(es[i + 1].0 == key);
        }
    }
}

pub proof fn lemma_first_with_key_skip(a: Seq<EntryView>, b: Seq<EntryView>, key: Seq<u8>)
    requires
        first_with_key(a, key) is None,
    ensures
        first_with_key(a + b, key) == first_with_key(b, key),
    decreases a.len(),
{
    if a.len() == 0 {
        assert(a + b =~= b);
    } else {
        assert((a + b).drop_first() =~= a.drop_first() + b);
        lemma_first_with_key_skip(a.drop_first(), b, key);
    }
}

/// In a run with strictly ascending keys the first entry carrying a key is the
/// only one.
pub proof fn lemma_first_with_key_sorted(vs: Seq<EntryView>, key: Seq<u8>)
    requires
        crate::merge::views_sorted(vs),
    ensures
        first_with_key(vs, key) == crate::merge::view_for(vs, key),
    decreases vs.len(),
{
    if vs.len() > 0 {
        let rest = vs.drop_first();
        assert(crate::merge::views_sorted(rest)) by {
            assert forall|i: int, j: int| 0 <= i < j < rest.len() implies lex_lt(#[trigger] rest[i].0, #[trigger] rest[j].0) by {
                assert(rest[i] == vs[i + 1] && rest[j] == vs[j + 1]);
            }
        }
        lemma_first_with_key_sorted(rest, key);
        if vs[0].0 == key {
            let j = choose|j: int| 0 <= j < vs.len() && #[trigger] vs[j].0 == key;
            if j > 0 {
                assert(lex_lt(vs[0].0, vs[j].0));
                lemma_lex_irrefl(key);
            }
            crate::merge::lemma_view_for_at(vs, 0);
            assert(first_with_key(vs, key) == Some(vs[0]));
        } else {
            if exists|i: int| 0 <= i < vs.len() && #[trigger] vs[i].0 == key {
                let j = choose|j: int| 0 <= j < vs.len() && #[trigger] vs[j].0 == key;
                assert(j > 0);
                assert(rest[j - 1].0 == key);
                let j2 = choose|j: int| 0 <= j < rest.len() && #[trigger] rest[j].0 == key;
                assert(vs[j2 + 1].0 == key);
                if j2 + 1 != j {
                    if j2 + 1 < j {
                        assert(lex_lt(vs[j2 + 1].0, vs[j].0));
                    } else {
                        assert(lex_lt(vs[j].0, vs[j2 + 1].0));
                    }
                    lemma_lex_irrefl(key);
                }
                crate::merge::lemma_view_for_at(rest, j2);
                crate::merge::lemma_view_for_at(vs, j);
            } else {
                assert forall|i: int| 0 <= i < rest.len() implies (#[trigger] rest[i]).0 != key by {
                    assert(rest[i] == vs[i + 1]);
                }
                assert(crate::merge::view_for(rest, key) is None);
                assert(crate::merge::view_for(vs, key) is None);
            }
        }
    }
}

/// A key the filter rejects is not in a sound table.
pub proof fn lemma_sound_filter(t: Seq<u8>, key: Seq<u8>)
    requires
        table_sound(t),
        !filter_admits(tbl_filter(t), key),
    ensures
        table_answer(t, key) is None,
{
    let es = table_contents(t)->0;
    assert forall|i: int| 0 <= i < es.len() implies (#[trigger] es[i]).0 != key by {
        assert(filter_admits(tbl_filter(t), es[i].0));
    }
    lemma_first_with_key_absent(es, key);
}

/// In a sound table, the block the index points `key` to answers for the whole table.
pub proof fn lemma_sound_split(t: Seq<u8>, key: Seq<u8>, p: int)
    requires
        table_sound(t),
        split_point(tbl_index(t).0, key, p),
    ensures
        block_for(p) >= tbl_index(t).1.len() ==> table_answer(t, key) is None,
        block_for(p) < tbl_index(t).1.len() ==> (tbl_block_read(t, tbl_index(t).1, table_footer(t)->0.meta_index_offset, block_for(p))
            matches Some(es) && table_answer(t, key) == lookup_answer(first_with_key(es, key))),
{
    let ks = tbl_index(t).0;
    let offs = tbl_index(t).1;
    let mio = table_footer(t)->0.meta_index_offset;
    let nb = offs.len() as int;
    let b = block_for(p);
    assert forall|c: int| 0 <= c < nb && c != b implies
        (#[trigger] tbl_block_read(t, offs, mio, c) matches Some(es) && first_with_key(es, key) is None) by {
        let es = tbl_block_read(t, offs, mio, c)->0;
        assert(block_keys_within(es, ks, c));
        assert forall|i: int| 0 <= i < es.len() implies (#[trigger] es[i]).0 != key by {
            let k = es[i].0;
            assert(lex_le(ks[c], k));
            if c < b {
                assert(b >= 1 && p == b + 1);
                assert(lex_lt(k, ks[c + 1]));
                assert(lex_le(ks[b], key));
                if c + 1 < b {
                    assert(lex_lt(ks[c + 1], ks[b]));
                    lemma_lex_trans(k, ks[c + 1], ks[b]);
                }
                if lex_lt(ks[b], key) {
                    lemma_lex_trans(k, ks[b], key);
                }
                lemma_lex_irrefl(key);
            } else {
                assert(c >= p);
                assert(lex_lt(key, ks[c]));
                if lex_lt(ks[c], k) {
                    lemma_lex_trans(key, ks[c], k);
                }
                lemma_lex_irrefl(key);
            }
        }
        lemma_first_with_key_absent(es, key);
    }
    lemma_scan_first_with_key(t, offs, mio, key, b, nb);
    if b >= nb {
        assert(nb == 0 || p > nb);
    }
}

proof fn lemma_scan_first_with_key(t: Seq<u8>, offs: Seq<u64>, mio: u64, key: Seq<u8>, b: int, m: int)
    requires
        0 <= m <= offs.len(),
        forall|c: int| 0 <= c < offs.len() ==> (#[trigger] tbl_block_read(t, offs, mio, c)) is Some,
        forall|c: int| 0 <= c < offs.len() && c != b ==> (#[trigger] tbl_block_read(t, offs, mio, c) matches Some(es)
            && first_with_key(es, key) is None),
    ensures
        tbl_scan_upto(t, offs, mio, m) matches Some(s) && first_with_key(s, key) == if 0 <= b < m {
            first_with_key(tbl_block_read(t, offs, mio, b)->0, key)
        } else {
            None
        },
    decreases m,
{
    if m > 0 {
        lemma_scan_first_with_key(t, offs, mio, key, b, m - 1);
        let prev = tbl_scan_upto(t, offs, mio, m - 1)->0;
        let es = tbl_block_read(t, offs, mio, m - 1)->0;
        assert(tbl_block_read(t, offs, mio, m - 1) is Some);
        if 0 <= b < m - 1 {
            assert(first_with_key(prev, key) is Some || first_with_key(prev, key) is None);
            if first_with_key(prev, key) is Some {
                lemma_first_with_key_extend_seq(prev, es, key);
            } else {
                lemma_first_with_key_skip(prev, es, key);
                assert(tbl_block_read(t, offs, mio, m - 1) matches Some(x) && first_with_key(x, key) is None);
            }
        } else {
            lemma_first_with_key_skip(prev, es, key);
        }
    } else {
        assert(first_with_key(Seq::<EntryView>::empty(), key) is None);
    }
}

proof fn lemma_first_with_key_extend_seq(a: Seq<EntryView>, b: Seq<EntryView>, key: Seq<u8>)
    requires
        first_with_key(a, key) is Some,
    ensures
        first_with_key(a + b, key) == first_with_key(a, key),
    decreases a.len(),
{
    if a[0].0 != key {
        assert((a + b).drop_first() =~= a.drop_first() + b);
        lemma_first_with_key_extend_seq(a.drop_first(), b, key);
    }
}

} // verus!
