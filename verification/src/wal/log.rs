//! A log file is a sequence of frames; recovery reads them up to the first
//! incomplete or damaged one.
use vstd::prelude::*;
use vstd::bytes::*;
use vstd::slice::*;
use crate::wal::record::{WalRecord, RecordView, frame_len, frame_complete, wal_decode};

verus! {

/// Records recovered from a log: frame after frame, stopping at the first frame
/// whose header or payload is incomplete, whose checksum fails, or whose payload
/// cannot be read.
pub open spec fn log_records(buf: Seq<u8>) -> Seq<RecordView>
    decreases buf.len(),
{
    if frame_complete(buf) {
        match wal_decode(buf.subrange(0, 8 + frame_len(buf))) {
            Some(r) => seq![r] + log_records(buf.subrange(8 + frame_len(buf), buf.len() as int)),
            None => Seq::empty(),
        }
    } else {
        Seq::empty()
    }
}

pub open spec fn record_views(rs: Seq<WalRecord>) -> Seq<RecordView> {
    rs.map_values(|r: WalRecord| r.view_tuple())
}

/// Bytes the frames of `rs` take: each payload plus its 8-byte header.
pub open spec fn frames_len(rs: Seq<WalRecord>) -> int
    decreases rs.len(),
{
    if rs.len() == 0 {
        0
    } else {
        frames_len(rs.drop_last()) + rs.last().payload_len() + 8
    }
}

/// A well-formed frame in front of any bytes is recovered first, then recovery
/// goes on with the bytes behind it.
pub proof fn lemma_log_records_frame_prefix(f: Seq<u8>, tail: Seq<u8>, rec: RecordView)
    requires
        wal_decode(f) == Some(rec),
        f.len() == 8 + frame_len(f),
    ensures
        log_records(f + tail) == seq![rec] + log_records(tail),
{
    let g = f + tail;
    assert(g.subrange(4, 8) =~= f.subrange(4, 8));
    assert(g.subrange(0, 8 + frame_len(g)) =~= f);
    assert(g.subrange(8 + frame_len(g), g.len() as int) =~= tail);
}

/// Concatenation of byte strings, in order.
pub open spec fn concat_bytes(fs: Seq<Seq<u8>>) -> Seq<u8>
    decreases fs.len(),
{
    if fs.len() == 0 {
        Seq::empty()
    } else {
        fs[0] + concat_bytes(fs.drop_first())
    }
}

/// Concatenation of record lists, in order.
pub open spec fn concat_records(rs: Seq<Seq<RecordView>>) -> Seq<RecordView>
    decreases rs.len(),
{
    if rs.len() == 0 {
        Seq::empty()
    } else {
        rs[0] + concat_records(rs.drop_first())
    }
}

/// Bytes that read back as `recs` in front of any bytes.
pub open spec fn frames_records(f: Seq<u8>, recs: Seq<RecordView>) -> bool {
    forall|tail: Seq<u8>| #[trigger] log_records(f + tail) == recs + log_records(tail)
}

/// A log written as a series of appends, each of which reads back as its own
/// records in front of whatever follows, recovers every record of every append,
/// in order.
pub proof fn law_log_replays(appends: Seq<Seq<u8>>, batches: Seq<Seq<RecordView>>)
    requires
        appends.len() == batches.len(),
        forall|i: int| 0 <= i < appends.len() ==> frames_records(#[trigger] appends[i], batches[i]),
    ensures
        log_records(concat_bytes(appends)) == concat_records(batches),
    decreases appends.len(),
{
    if appends.len() == 0 {
        assert(!frame_complete(Seq::<u8>::empty()));
    } else {
        assert forall|i: int| 0 <= i < appends.drop_first().len() implies frames_records(#[trigger] appends.drop_first()[i], batches.drop_first()[i]) by {
            assert(appends.drop_first()[i] == appends[i + 1]);
            assert(batches.drop_first()[i] == batches[i + 1]);
            assert(frames_records(appends[i + 1], batches[i + 1]));
        }
        law_log_replays(appends.drop_first(), batches.drop_first());
        let rest = concat_bytes(appends.drop_first());
        assert(frames_records(appends[0], batches[0]));
        assert(log_records(appends[0] + rest) == batches[0] + log_records(rest));
    }
}

/// Whatever follows the appends that were written whole (a torn or damaged
/// write, or nothing), recovery gives back every record of those appends, in
/// order, before anything it may read from the rest.
pub proof fn law_log_keeps_written_prefix(appends: Seq<Seq<u8>>, batches: Seq<Seq<RecordView>>, tail: Seq<u8>)
    requires
        appends.len() == batches.len(),
        forall|i: int| 0 <= i < appends.len() ==> frames_records(#[trigger] appends[i], batches[i]),
    ensures
        log_records(concat_bytes(appends) + tail) == concat_records(batches) + log_records(tail),
    decreases appends.len(),
{
    if appends.len() == 0 {
        assert(concat_bytes(appends) + tail =~= tail);
        assert(concat_records(batches) + log_records(tail) =~= log_records(tail));
    } else {
        assert forall|i: int| 0 <= i < appends.drop_first().len() implies frames_records(#[trigger] appends.drop_first()[i], batches.drop_first()[i]) by {
            assert(appends.drop_first()[i] == appends[i + 1]);
            assert(batches.drop_first()[i] == batches[i + 1]);
            assert(frames_records(appends[i + 1], batches[i + 1]));
        }
        law_log_keeps_written_prefix(appends.drop_first(), batches.drop_first(), tail);
        let rest = concat_bytes(appends.drop_first()) + tail;
        assert(frames_records(appends[0], batches[0]));
        assert(log_records(appends[0] + rest) == batches[0] + log_records(rest));
        assert(concat_bytes(appends) + tail =~= appends[0] + rest);
        assert(concat_records(batches) + log_records(tail) =~= batches[0] + (concat_records(batches.drop_first()) + log_records(tail)));
    }
}

/// Encodes records as consecutive frames (the bytes one batch append writes).
/// When every payload fits the length field, recovery of the result followed by
/// any bytes yields exactly these records first; recovery of the result alone
/// yields exactly these records.
pub fn encode_batch(records: &[WalRecord]) -> (r: Vec<u8>)
    requires
        forall|i: int| 0 <= i < records@.len() ==> #[trigger] records@[i].payload_len() + 8 <= usize::MAX,
    ensures
        (forall|i: int| 0 <= i < records@.len() ==> #[trigger] records@[i].payload_len() <= u32::MAX)
            ==> {
            &&& log_records(r@) == record_views(records@)
            &&& frames_records(r@, record_views(records@))
        },
{
    let mut buf: Vec<u8> = Vec::new();
    let ghost all_fit = forall|i: int| 0 <= i < records@.len() ==> #[trigger] records@[i].payload_len() <= u32::MAX;
    let mut i: usize = 0;
    proof {
        assert forall|tail: Seq<u8>| #[trigger] log_records(buf@ + tail) == record_views(records@.take(0)) + log_records(tail) by {
            assert(buf@ + tail =~= tail);
            assert(record_views(records@.take(0)) =~= Seq::<RecordView>::empty());
            assert(Seq::<RecordView>::empty() + log_records(tail) =~= log_records(tail));
        }
    }
    while i < records.len()
        invariant
            i <= records@.len(),
            forall|i: int| 0 <= i < records@.len() ==> #[trigger] records@[i].payload_len() + 8 <= usize::MAX,
            all_fit == forall|i: int| 0 <= i < records@.len() ==> #[trigger] records@[i].payload_len() <= u32::MAX,
            all_fit ==> forall|tail: Seq<u8>| #[trigger] log_records(buf@ + tail) == record_views(records@.take(i as int)) + log_records(tail),
        decreases records@.len() - i,
    {
        let mut frame = records[i].encode();
        let ghost f = frame@;
        let ghost old_buf = buf@;
        buf.append(&mut frame);
        proof {
            if all_fit {
                assert(records@[i as int].payload_len() <= u32::MAX);
                let rec = records@[i as int].view_tuple();
                assert(record_views(records@.take(i + 1)) =~= record_views(records@.take(i as int)).push(rec));
                assert forall|tail: Seq<u8>| #[trigger] log_records(buf@ + tail) == record_views(records@.take(i + 1)) + log_records(tail) by {
                    assert(buf@ + tail =~= old_buf + (f + tail));
                    lemma_log_records_frame_prefix(f, tail, rec);
                    assert(log_records(old_buf + (f + tail)) == record_views(records@.take(i as int)) + log_records(f + tail));
                    assert(record_views(records@.take(i as int)) + (seq![rec] + log_records(tail)) =~= record_views(records@.take(i + 1)) + log_records(tail));
                }
            }
        }
        i = i + 1;
    }
    proof {
        assert(records@.take(i as int) =~= records@);
        if all_fit {
            assert(buf@ + Seq::<u8>::empty() =~= buf@);
            assert(log_records(buf@ + Seq::<u8>::empty()) == record_views(records@) + log_records(Seq::<u8>::empty()));
            assert(record_views(records@) + Seq::<RecordView>::empty() =~= record_views(records@));
        }
    }
    buf
}

/// Recovers the records of a log image: frame after frame, stopping without
/// error at a torn or damaged frame, so that every complete frame before it is kept.
pub fn decode_log(buf: &[u8]) -> (r: Vec<WalRecord>)
    ensures
        record_views(r@) == log_records(buf@),
        frames_len(r@) <= buf@.len(),
{
    let mut records: Vec<WalRecord> = Vec::new();
    let mut offset: usize = 0;
    let n = buf.len();
    assert(buf@.subrange(0, n as int) =~= buf@);
    assert(record_views(records@) + log_records(buf@) =~= log_records(buf@));
    while offset < n
        invariant_except_break
            offset <= n,
        invariant
            n == buf@.len(),
            offset <= n,
            record_views(records@) + log_records(buf@.subrange(offset as int, n as int)) == log_records(buf@),
            frames_len(records@) <= offset,
        ensures
            record_views(records@) == log_records(buf@),
            frames_len(records@) <= n,
        decreases n - offset,
    {
        let ghost rest = buf@.subrange(offset as int, n as int);
        if n - offset < 8 {
            assert(!frame_complete(rest));
            assert(record_views(records@) + Seq::<RecordView>::empty() =~= record_views(records@));
            break;
        }
        let payload_len = u32_from_le_bytes(slice_subrange(buf, offset + 4, offset + 8)) as usize;
        assert(rest.subrange(4, 8) =~= buf@.subrange(offset + 4, offset + 8));
        assert(payload_len == frame_len(rest));
        if n - offset - 8 < payload_len {
            assert(!frame_complete(rest));
            assert(record_views(records@) + Seq::<RecordView>::empty() =~= record_views(records@));
            break;
        }
        let end = offset + 8 + payload_len;
        let slice = slice_subrange(buf, offset, end);
        assert(slice@ =~= rest.subrange(0, 8 + frame_len(rest)));
        match WalRecord::decode(slice) {
            Ok(rec) => {
                let ghost rv = rec.view_tuple();
                let ghost old_records = records@;
                records.push(rec);
                proof {
                    assert(records@.drop_last() =~= old_records);
                    assert(rest.subrange(8 + frame_len(rest), rest.len() as int) =~= buf@.subrange(end as int, n as int));
                    assert(record_views(records@) =~= record_views(old_records).push(rv));
                    assert(record_views(old_records).push(rv) + log_records(buf@.subrange(end as int, n as int))
                        =~= record_views(old_records) + (seq![rv] + log_records(buf@.subrange(end as int, n as int))));
                }
                offset = end;
            },
            Err(_) => {
                assert(record_views(records@) + Seq::<RecordView>::empty() =~= record_views(records@));
                break;
            },
        }
    }
    records
}

/// A torn tail is dropped: after appends written whole, bytes that do not
/// begin with a complete frame that reads as a record give nothing, so
/// recovery gives back exactly the records of the appends, in order.
pub proof fn law_log_drops_torn_tail(appends: Seq<Seq<u8>>, batches: Seq<Seq<RecordView>>, tail: Seq<u8>)
    requires
        appends.len() == batches.len(),
        forall|i: int| 0 <= i < appends.len() ==> frames_records(#[trigger] appends[i], batches[i]),
        !frame_complete(tail) || wal_decode(tail.subrange(0, 8 + frame_len(tail))) is None,
    ensures
        log_records(concat_bytes(appends) + tail) == concat_records(batches),
{
    law_log_keeps_written_prefix(appends, batches, tail);
    assert(log_records(tail) =~= Seq::<RecordView>::empty());
    assert(concat_records(batches) + Seq::<RecordView>::empty() =~= concat_records(batches));
}

} // verus!
