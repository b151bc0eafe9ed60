//! The manifest: a log of version edits (`[length u32 LE][bincode edit]` each),
//! and the version set that replays them.
pub mod version;

use vstd::prelude::*;
use vstd::bytes::*;
use vstd::slice::*;
use crate::error::FlashStoreError;
use crate::wire::{bincode_edit_parse, serialize_edit, deserialize_edit, RawFile, raw_files_view};
use version::{FileMetaData, FileView, Version, VersionEdit, EditView, file_view, files_view, levels_view};

verus! {

/// The edits a manifest image holds, or `None` when a complete record cannot be
/// read. An incomplete trailing record ends the list.
pub open spec fn manifest_parse(buf: Seq<u8>) -> Option<Seq<EditView>>
    decreases buf.len(),
{
    if buf.len() < 4 {
        Some(Seq::empty())
    } else {
        let l = spec_u32_from_le_bytes(buf.subrange(0, 4)) as int;
        if buf.len() - 4 < l {
            Some(Seq::empty())
        } else {
            match bincode_edit_parse(buf.subrange(4, 4 + l)) {
                Some(e) => match manifest_parse(buf.subrange(4 + l, buf.len() as int)) {
                    Some(rest) => Some(seq![e] + rest),
                    None => None,
                },
                None => None,
            }
        }
    }
}

pub open spec fn prepend(e: EditView, r: Option<Seq<EditView>>) -> Option<Seq<EditView>> {
    match r {
        Some(rest) => Some(seq![e] + rest),
        None => None,
    }
}

/// A record that reads back as `e` in front of any bytes.
pub open spec fn frames_edit(f: Seq<u8>, e: EditView) -> bool {
    forall|tail: Seq<u8>| #[trigger] manifest_parse(f + tail) == prepend(e, manifest_parse(tail))
}

pub open spec fn concat_all(fs: Seq<Seq<u8>>) -> Seq<u8>
    decreases fs.len(),
{
    if fs.len() == 0 {
        Seq::empty()
    } else {
        fs[0] + concat_all(fs.drop_first())
    }
}

/// A manifest written by appending one record per edit reads back as those
/// edits, in order.
pub proof fn law_manifest_replays(frames: Seq<Seq<u8>>, edits: Seq<EditView>)
    requires
        frames.len() == edits.len(),
        forall|i: int| 0 <= i < frames.len() ==> frames_edit(#[trigger] frames[i], edits[i]),
    ensures
        manifest_parse(concat_all(frames)) == Some(edits),
    decreases frames.len(),
{
    if frames.len() == 0 {
        assert(manifest_parse(Seq::<u8>::empty()) == Some(Seq::<EditView>::empty()));
        assert(edits =~= Seq::<EditView>::empty());
    } else {
        assert forall|i: int| 0 <= i < frames.drop_first().len() implies frames_edit(#[trigger] frames.drop_first()[i], edits.drop_first()[i]) by {
            assert(frames_edit(frames[i + 1], edits[i + 1]));
        }
        law_manifest_replays(frames.drop_first(), edits.drop_first());
        assert(frames_edit(frames[0], edits[0]));
        assert(manifest_parse(frames[0] + concat_all(frames.drop_first())) == prepend(edits[0], manifest_parse(concat_all(frames.drop_first()))));
        assert(seq![edits[0]] + edits.drop_first() =~= edits);
    }
}

/// The added files of an edit as plain tuples.
fn raw_new_files(nf: &Vec<(usize, FileMetaData)>) -> (r: Vec<(usize, RawFile)>)
    ensures
        raw_files_view(r@) == version::new_files_view(nf@),
{
    let mut out: Vec<(usize, RawFile)> = Vec::new();
    let mut i: usize = 0;
    while i < nf.len()
        invariant
            i <= nf@.len(),
            out@.len() == i,
            raw_files_view(out@) == version::new_files_view(nf@.take(i as int)),
        decreases nf@.len() - i,
    {
        let f = &nf[i].1;
        let lo = f.smallest_key.clone();
        let hi = f.largest_key.clone();
        assert(lo@ =~= f.smallest_key@ && hi@ =~= f.largest_key@);
        let ghost before = out@;
        out.push((nf[i].0, (f.file_number, f.file_size, lo, hi)));
        proof {
            let a = raw_files_view(out@);
            let b = version::new_files_view(nf@.take(i + 1));
            assert forall|j: int| 0 <= j < a.len() implies a[j] == b[j] by {
                if j < i {
                    assert(out@[j] == before[j]);
                    assert(a[j] == raw_files_view(before)[j]);
                    assert(b[j] == version::new_files_view(nf@.take(i as int))[j]);
                }
            }
            assert(a =~= b);
        }
        i = i + 1;
    }
    assert(nf@.take(nf@.len() as int) =~= nf@);
    out
}

/// Builds an edit from its plain-tuple form.
fn edit_from_raw(next: Option<u64>, last: Option<u64>, nf: &Vec<(usize, RawFile)>, deleted: Vec<(usize, u64)>) -> (e: VersionEdit)
    ensures
        e.view() == (next, last, raw_files_view(nf@), deleted@),
{
    let mut files: Vec<(usize, FileMetaData)> = Vec::new();
    let mut i: usize = 0;
    while i < nf.len()
        invariant
            i <= nf@.len(),
            files@.len() == i,
            version::new_files_view(files@) == raw_files_view(nf@.take(i as int)),
        decreases nf@.len() - i,
    {
        let r = &nf[i].1;
        let meta = FileMetaData { file_number: r.0, file_size: r.1, smallest_key: r.2.clone(), largest_key: r.3.clone() };
        assert(meta.smallest_key@ =~= r.2@ && meta.largest_key@ =~= r.3@);
        let ghost before = files@;
        files.push((nf[i].0, meta));
        proof {
            let a = version::new_files_view(files@);
            let b = raw_files_view(nf@.take(i + 1));
            assert forall|j: int| 0 <= j < a.len() implies a[j] == b[j] by {
                if j < i {
                    assert(files@[j] == before[j]);
                    assert(a[j] == version::new_files_view(before)[j]);
                    assert(b[j] == raw_files_view(nf@.take(i as int))[j]);
                }
            }
            assert(a =~= b);
        }
        i = i + 1;
    }
    assert(nf@.take(nf@.len() as int) =~= nf@);
    VersionEdit { next_file_number: next, last_sequence: last, new_files: files, deleted_files: deleted }
}

/// Encodes one manifest record; while its payload fits the length field, the
/// record reads back as the edit in front of any bytes.
pub fn encode_edit_record(edit: &VersionEdit) -> (r: Vec<u8>)
    ensures
        r@.len() >= 4 && (r@.len() - 4 <= u32::MAX ==> frames_edit(r@, edit.view())),
{
    let raw = raw_new_files(&edit.new_files);
    let payload = serialize_edit(edit.next_file_number, edit.last_sequence, &raw, &edit.deleted_files);
    let ghost p = payload@;
    let plen = payload.len();
    #[verifier::truncate]
    let n: u32 = plen as u32;
    let mut buf = u32_to_le_bytes(n);
    let mut payload = payload;
    buf.append(&mut payload);
    proof {
        lemma_auto_spec_u32_to_from_le_bytes();
        if plen <= u32::MAX {
            assert forall|tail: Seq<u8>| #[trigger] manifest_parse(buf@ + tail) == prepend(edit.view(), manifest_parse(tail)) by {
                let g = buf@ + tail;
                assert(g.subrange(0, 4) =~= spec_u32_to_le_bytes(n));
                assert(g.subrange(4, 4 + plen) =~= p);
                assert(g.subrange(4 + plen, g.len() as int) =~= tail);
            }
        }
    }
    buf
}

/// Reads every edit of a manifest image; a record that does not read is an error,
/// an incomplete trailing record ends the list.
pub fn decode_edits(buf: &[u8]) -> (r: Result<Vec<VersionEdit>, FlashStoreError>)
    ensures
        r is Ok <==> manifest_parse(buf@) is Some,
        r matches Ok(es) ==> manifest_parse(buf@) == Some(es@.map_values(|e: VersionEdit| e.view())),
        r matches Err(e) ==> e is Other,
{
    let mut edits: Vec<VersionEdit> = Vec::new();
    let n = buf.len();
    let mut offset: usize = 0;
    assert(buf@.subrange(0, n as int) =~= buf@);
    while offset < n
        invariant_except_break
            offset <= n,
        invariant
            n == buf@.len(),
            offset <= n,
            manifest_parse(buf@) == match manifest_parse(buf@.subrange(offset as int, n as int)) {
                Some(rest) => Some(edits@.map_values(|e: VersionEdit| e.view()) + rest),
                None => None::<Seq<EditView>>,
            },
        ensures
            manifest_parse(buf@) == Some(edits@.map_values(|e: VersionEdit| e.view())),
        decreases n - offset,
    {
        let ghost rest = buf@.subrange(offset as int, n as int);
        let ghost done = edits@.map_values(|e: VersionEdit| e.view());
        if n - offset < 4 {
            assert(done + Seq::<EditView>::empty() =~= done);
            break;
        }
        let len = u32_from_le_bytes(slice_subrange(buf, offset, offset + 4)) as usize;
        assert(rest.subrange(0, 4) =~= buf@.subrange(offset as int, offset + 4));
        if n - offset - 4 < len {
            assert(done + Seq::<EditView>::empty() =~= done);
            break;
        }
        let payload = slice_subrange(buf, offset + 4, offset + 4 + len);
        assert(payload@ =~= rest.subrange(4, 4 + len));
        let edit = match deserialize_edit(payload) {
            Ok(t) => edit_from_raw(t.0, t.1, &t.2, t.3),
            Err(msg) => {
                return Err(FlashStoreError::Other(msg));
            },
        };
        let ghost ev = edit.view();
        edits.push(edit);
        proof {
            assert(rest.subrange(4 + len, rest.len() as int) =~= buf@.subrange(offset + 4 + len, n as int));
            assert(edits@.map_values(|e: VersionEdit| e.view()) =~= done.push(ev));
            let later = manifest_parse(buf@.subrange(offset + 4 + len, n as int));
            if later is Some {
                assert(done + (seq![ev] + later->0) =~= done.push(ev) + later->0);
            }
        }
        offset = offset + 4 + len;
    }
    Ok(edits)
}

/// File list without the file numbered `num`.
pub open spec fn without_file(fs: Seq<FileView>, num: u64) -> Seq<FileView>
    decreases fs.len(),
{
    if fs.len() == 0 {
        Seq::empty()
    } else {
        let r = without_file(fs.drop_last(), num);
        if fs.last().0 != num { r.push(fs.last()) } else { r }
    }
}

pub open spec fn apply_deletes(ls: Seq<Seq<FileView>>, dels: Seq<(usize, u64)>) -> Seq<Seq<FileView>>
    decreases dels.len(),
{
    if dels.len() == 0 {
        ls
    } else {
        let prev = apply_deletes(ls, dels.drop_last());
        let d = dels.last();
        if d.0 < prev.len() { prev.update(d.0 as int, without_file(prev[d.0 as int], d.1)) } else { prev }
    }
}

pub open spec fn apply_adds(ls: Seq<Seq<FileView>>, adds: Seq<(usize, FileView)>) -> Seq<Seq<FileView>>
    decreases adds.len(),
{
    if adds.len() == 0 {
        ls
    } else {
        let prev = apply_adds(ls, adds.drop_last());
        let a = adds.last();
        if a.0 < prev.len() { prev.update(a.0 as int, prev[a.0 as int].push(a.1)) } else { prev }
    }
}

/// Levels after an edit: its deletions in order (levels out of range ignored),
/// then its additions in order.
pub open spec fn apply_edit(ls: Seq<Seq<FileView>>, e: EditView) -> Seq<Seq<FileView>> {
    apply_adds(apply_deletes(ls, e.3), e.2)
}

/// The current version with file-number and sequence counters.
pub struct VersionSet {
    pub current: Version,
    pub next_file_number: u64,
    pub last_sequence: u64,
    pub max_levels: usize,
}

impl VersionSet {
    pub fn new(max_levels: usize) -> (s: VersionSet)
        ensures
            s.current.view().len() == max_levels,
            forall|i: int| 0 <= i < max_levels ==> #[trigger] s.current.view()[i].len() == 0,
            s.next_file_number == 1,
            s.last_sequence == 0,
            s.max_levels == max_levels,
    {
        VersionSet { current: Version::new(max_levels), next_file_number: 1, last_sequence: 0, max_levels }
    }

    /// A copy of the current version.
    pub fn current(&self) -> (v: Version)
        ensures
            v.view() == self.current.view(),
    {
        self.current.duplicate()
    }

    /// Hands out the next file number.
    pub fn next_file_number(&mut self) -> (n: u64)
        requires
            old(self).next_file_number < u64::MAX,
        ensures
            n == old(self).next_file_number,
            final(self).next_file_number == n + 1,
            final(self).current == old(self).current,
            final(self).last_sequence == old(self).last_sequence,
            final(self).max_levels == old(self).max_levels,
    {
        let n = self.next_file_number;
        self.next_file_number = n + 1;
        n
    }

    pub fn last_sequence(&self) -> (r: u64)
        ensures
            r == self.last_sequence,
    {
        self.last_sequence
    }

    pub fn set_last_sequence(&mut self, seq: u64)
        ensures
            final(self).last_sequence == seq,
            final(self).current == old(self).current,
            final(self).next_file_number == old(self).next_file_number,
            final(self).max_levels == old(self).max_levels,
    {
        self.last_sequence = seq;
    }

    /// Allocates the next sequence number.
    pub fn next_sequence(&mut self) -> (s: u64)
        requires
            old(self).last_sequence < u64::MAX,
        ensures
            s == old(self).last_sequence + 1,
            final(self).last_sequence == s,
            final(self).current == old(self).current,
            final(self).next_file_number == old(self).next_file_number,
            final(self).max_levels == old(self).max_levels,
    {
        self.last_sequence = self.last_sequence + 1;
        self.last_sequence
    }

    /// Applies an edit to the current version and adopts its counters, if it carries them.
    pub fn log_and_apply(&mut self, edit: VersionEdit)
        ensures
            final(self).current.view() == apply_edit(old(self).current.view(), edit.view()),
            final(self).next_file_number == match edit.next_file_number { Some(n) => n, None => old(self).next_file_number },
            final(self).last_sequence == match edit.last_sequence { Some(n) => n, None => old(self).last_sequence },
            final(self).max_levels == old(self).max_levels,
    {
        let mut levels = self.current.duplicate().levels;
        let ghost base = self.current.view();
        let mut d: usize = 0;
        while d < edit.deleted_files.len()
            invariant
                d <= edit.deleted_files@.len(),
                levels_view(levels@) == apply_deletes(base, edit.deleted_files@.take(d as int)),
            decreases edit.deleted_files@.len() - d,
        {
            let (level, num) = edit.deleted_files[d];
            proof {
                assert(edit.deleted_files@.take(d + 1).drop_last() =~= edit.deleted_files@.take(d as int));
                assert(edit.deleted_files@.take(d + 1).last() == edit.deleted_files@[d as int]);
            }
            if level < levels.len() {
                let ghost before = levels@;
                let old_files = levels.remove(level);
                let kept = retain_other_files(&old_files, num);
                levels.insert(level, kept);
                assert(levels_view(levels@) =~= levels_view(before).update(level as int, without_file(files_view(old_files@), num)));
            }
            d = d + 1;
        }
        assert(edit.deleted_files@.take(edit.deleted_files@.len() as int) =~= edit.deleted_files@);
        let ghost mid = levels_view(levels@);
        let mut a: usize = 0;
        while a < edit.new_files.len()
            invariant
                a <= edit.new_files@.len(),
                levels_view(levels@) == apply_adds(mid, version::new_files_view(edit.new_files@).take(a as int)),
            decreases edit.new_files@.len() - a,
        {
            let level = edit.new_files[a].0;
            proof {
                let nfv = version::new_files_view(edit.new_files@);
                assert(nfv.take(a + 1).drop_last() =~= nfv.take(a as int));
                assert(nfv.take(a + 1).last() == (level, file_view(edit.new_files@[a as int].1)));
            }
            if level < levels.len() {
                let ghost before = levels@;
                let meta = edit.new_files[a].1.duplicate();
                let mut files = levels.remove(level);
                let ghost old_files = files@;
                files.push(meta);
                assert(files_view(files@) =~= files_view(old_files).push(file_view(meta)));
                levels.insert(level, files);
                assert(levels_view(levels@) =~= levels_view(before).update(level as int, files_view(old_files).push(file_view(meta))));
            }
            a = a + 1;
        }
        assert(version::new_files_view(edit.new_files@).take(edit.new_files@.len() as int) =~= version::new_files_view(edit.new_files@));
        self.current = Version { levels };
        match edit.next_file_number {
            Some(n) => { self.next_file_number = n; },
            None => {},
        }
        match edit.last_sequence {
            Some(s) => { self.last_sequence = s; },
            None => {},
        }
    }
}

/// Copies the files other than the one numbered `num`, in order.
pub fn retain_other_files(fs: &Vec<FileMetaData>, num: u64) -> (r: Vec<FileMetaData>)
    ensures
        files_view(r@) == without_file(files_view(fs@), num),
{
    let mut out: Vec<FileMetaData> = Vec::new();
    let mut i: usize = 0;
    while i < fs.len()
        invariant
            i <= fs@.len(),
            files_view(out@) == without_file(files_view(fs@.take(i as int)), num),
        decreases fs@.len() - i,
    {
        let ghost before = out@;
        proof {
            assert(files_view(fs@.take(i + 1)).drop_last() =~= files_view(fs@.take(i as int)));
            assert(files_view(fs@.take(i + 1)).last() == file_view(fs@[i as int]));
        }
        if fs[i].file_number != num {
            out.push(fs[i].duplicate());
            assert(files_view(out@) =~= files_view(before).push(file_view(fs@[i as int])));
        }
        i = i + 1;
    }
    assert(fs@.take(fs@.len() as int) =~= fs@);
    out
}

} // verus!
