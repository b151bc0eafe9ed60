//! Leveled compaction: choosing what to merge, and merging it into one table
//! on the next level.
//!
//! Level 0 is compacted once it holds `l0_compaction_trigger` files. A deeper
//! level `L` is due once its bytes reach its target `base * 10^(L-1)`; among due
//! levels the one with the highest ratio of bytes to target is chosen, the
//! shallowest on a tie. The last level is never a source.
use vstd::prelude::*;
use crate::keys::{lex_lt, key_lt};
use crate::manifest::version::{FileMetaData, FileView, file_view, files_view, levels_view, copy_files, VersionEdit};
use crate::config::Options;
use crate::error::FlashStoreError;
use crate::types::{Entry, ValueType, sizes_sum};
use crate::sstable::block::{EntryView, entry_view, entry_views};
use crate::sstable::reader::{TableReader, table_wf, table_contents, tables_entries, images, lemma_reader_matches_image};
use crate::sstable::builder::{TableBuilder, filter_fits_for, filter_fits, build_run, table_fits};
use crate::sstable::lookup::table_sound;
use crate::merge::{compact_entries, latest, latest_view, lemma_latest_views, views_sorted, view_for, compacted_for, lemma_entry_for_views};

verus! {

/// A compaction to run: every file of `level` is merged down into `target_level`.
pub struct CompactionTask {
    pub level: usize,
    pub input_files: Vec<FileMetaData>,
    pub target_level: usize,
}

/// Compaction policy.
pub struct Compactor {
    pub max_levels: usize,
    pub base_level_size_bytes: usize,
    pub l0_compaction_trigger: usize,
}

/// The merged table, unless nothing survived, and the edit that swaps it in
/// for the input files.
pub struct CompactionOutput {
    pub image: Option<Vec<u8>>,
    pub edit: VersionEdit,
}

/// Removals of the files of `files` from `level`, in order.
pub open spec fn removals(level: usize, files: Seq<FileView>) -> Seq<(usize, u64)> {
    files.map_values(|f: FileView| (level, f.0))
}

/// Total bytes of a file list.
pub open spec fn level_size(files: Seq<FileView>) -> int
    decreases files.len(),
{
    if files.len() == 0 {
        0
    } else {
        level_size(files.drop_last()) + files.last().1
    }
}

pub open spec fn pow10(e: nat) -> int
    decreases e,
{
    if e == 0 { 1 } else { 10 * pow10((e - 1) as nat) }
}

/// Byte target of level `level >= 1`.
pub open spec fn level_target(base: int, level: int) -> int {
    base * pow10((level - 1) as nat)
}

/// Level `l` holds bytes and has reached its target.
pub open spec fn level_due(levels: Seq<Seq<FileView>>, base: int, l: int) -> bool {
    level_size(levels[l]) > 0 && level_size(levels[l]) >= level_target(base, l)
}

/// Level `a` has a higher ratio of bytes to target than level `b`.
pub open spec fn scores_above(levels: Seq<Seq<FileView>>, base: int, a: int, b: int) -> bool {
    level_size(levels[a]) * level_target(base, b) > level_size(levels[b]) * level_target(base, a)
}

/// The best due level among `1..n` that is not the last level.
pub open spec fn best_level(levels: Seq<Seq<FileView>>, base: int, max_levels: int, n: int) -> Option<int>
    decreases n,
{
    if n <= 1 {
        None
    } else {
        let p = best_level(levels, base, max_levels, n - 1);
        let l = n - 1;
        if l + 1 < max_levels && level_due(levels, base, l) && (p is None || scores_above(levels, base, l, p->0)) {
            Some(l)
        } else {
            p
        }
    }
}

/// The level a compaction starts from, if any is due.
pub open spec fn picked_level(levels: Seq<Seq<FileView>>, base: int, max_levels: int, trigger: int) -> Option<int> {
    if levels.len() > 0 && 1 < max_levels && levels[0].len() >= trigger && levels[0].len() > 0 {
        Some(0)
    } else {
        best_level(levels, base, max_levels, levels.len() as int)
    }
}

/// Two inclusive key ranges share a key.
pub open spec fn spec_ranges_overlap(min1: Seq<u8>, max1: Seq<u8>, min2: Seq<u8>, max2: Seq<u8>) -> bool {
    !(lex_lt(max1, min2) || lex_lt(max2, min1))
}

/// The files whose key range overlaps `[lo, hi]`, in order.
pub open spec fn overlapping(files: Seq<FileView>, lo: Seq<u8>, hi: Seq<u8>) -> Seq<FileView>
    decreases files.len(),
{
    if files.len() == 0 {
        Seq::empty()
    } else {
        let f = files.last();
        overlapping(files.drop_last(), lo, hi) + if spec_ranges_overlap(f.2, f.3, lo, hi) { seq![f] } else { Seq::<FileView>::empty() }
    }
}

/// Smallest of the files' smallest keys.
pub open spec fn min_smallest(files: Seq<FileView>) -> Seq<u8>
    decreases files.len(),
{
    if files.len() <= 1 {
        files[0].2
    } else {
        let m = min_smallest(files.drop_last());
        if lex_lt(files.last().2, m) { files.last().2 } else { m }
    }
}

/// Largest of the files' largest keys.
pub open spec fn max_largest(files: Seq<FileView>) -> Seq<u8>
    decreases files.len(),
{
    if files.len() <= 1 {
        files[0].3
    } else {
        let m = max_largest(files.drop_last());
        if lex_lt(m, files.last().3) { files.last().3 } else { m }
    }
}

/// Whether two inclusive key ranges share a key.
pub fn ranges_overlap(min1: &[u8], max1: &[u8], min2: &[u8], max2: &[u8]) -> (r: bool)
    ensures
        r == spec_ranges_overlap(min1@, max1@, min2@, max2@),
{
    !(key_lt(max1, min2) || key_lt(max2, min1))
}

/// The files of `files` whose key range overlaps `[smallest, largest]`, in order.
pub fn find_overlapping_files(files: &Vec<FileMetaData>, smallest: &[u8], largest: &[u8]) -> (r: Vec<FileMetaData>)
    ensures
        files_view(r@) == overlapping(files_view(files@), smallest@, largest@),
{
    let ghost fv = files_view(files@);
    let mut r: Vec<FileMetaData> = Vec::new();
    let mut i: usize = 0;
    while i < files.len()
        invariant
            i <= files@.len(),
            fv == files_view(files@),
            files_view(r@) == overlapping(fv.take(i as int), smallest@, largest@),
        decreases files@.len() - i,
    {
        let f = &files[i];
        proof {
            assert(fv.take(i + 1).drop_last() =~= fv.take(i as int));
            assert(fv.take(i + 1).last() == file_view(*f));
        }
        let ghost before = r@;
        if ranges_overlap(f.smallest_key.as_slice(), f.largest_key.as_slice(), smallest, largest) {
            let d = f.duplicate();
            r.push(d);
            assert(files_view(r@) =~= files_view(before).push(file_view(d)));
        }
        assert(files_view(r@) =~= overlapping(fv.take(i + 1), smallest@, largest@));
        i = i + 1;
    }
    assert(fv.take(files@.len() as int) =~= fv);
    r
}

/// The key range covered by a nonempty file list.
pub fn key_range(files: &Vec<FileMetaData>) -> (r: (Vec<u8>, Vec<u8>))
    requires
        files@.len() > 0,
    ensures
        r.0@ == min_smallest(files_view(files@)),
        r.1@ == max_largest(files_view(files@)),
{
    let ghost fv = files_view(files@);
    let mut lo = files[0].smallest_key.clone();
    let mut hi = files[0].largest_key.clone();
    let mut i: usize = 1;
    proof {
        assert(fv.take(1).len() == 1);
        assert(lo@ =~= fv[0].2);
        assert(hi@ =~= fv[0].3);
    }
    while i < files.len()
        invariant
            1 <= i <= files@.len(),
            fv == files_view(files@),
            lo@ == min_smallest(fv.take(i as int)),
            hi@ == max_largest(fv.take(i as int)),
        decreases files@.len() - i,
    {
        proof {
            assert(fv.take(i + 1).drop_last() =~= fv.take(i as int));
            assert(fv.take(i + 1).last() == file_view(files@[i as int]));
        }
        if key_lt(files[i].smallest_key.as_slice(), lo.as_slice()) {
            lo = files[i].smallest_key.clone();
            assert(lo@ =~= files@[i as int].smallest_key@);
        }
        if key_lt(hi.as_slice(), files[i].largest_key.as_slice()) {
            hi = files[i].largest_key.clone();
            assert(hi@ =~= files@[i as int].largest_key@);
        }
        i = i + 1;
    }
    assert(fv.take(files@.len() as int) =~= fv);
    (lo, hi)
}

impl Compactor {
    /// A policy for `max_levels` levels whose level 1 targets
    /// `base_level_size_bytes` bytes; level 0 is compacted at four files.
    pub fn new(max_levels: usize, base_level_size_bytes: usize) -> (c: Compactor)
        ensures
            c.max_levels == max_levels,
            c.base_level_size_bytes == base_level_size_bytes,
            c.l0_compaction_trigger == 4,
    {
        Compactor { max_levels, base_level_size_bytes, l0_compaction_trigger: 4 }
    }

    /// Chooses the next compaction: level 0 once it holds the trigger count of
    /// files, otherwise the due level with the highest ratio of bytes to target.
    /// The task takes every file of the chosen level into the next level.
    pub fn pick_compaction(&self, levels: &[Vec<FileMetaData>]) -> (r: Option<CompactionTask>)
        requires
            forall|l: int| 0 <= l < levels@.len() ==> level_size(#[trigger] levels_view(levels@)[l]) <= u64::MAX,
        ensures
            match picked_level(levels_view(levels@), self.base_level_size_bytes as int, self.max_levels as int,
                self.l0_compaction_trigger as int) {
                None => r is None,
                Some(l) => r matches Some(t) && t.level == l && t.target_level == l + 1
                    && files_view(t.input_files@) == levels_view(levels@)[l],
            },
    {
        let ghost lv = levels_view(levels@);
        let n = levels.len();
        if n > 0 && 1 < self.max_levels && levels[0].len() >= self.l0_compaction_trigger && levels[0].len() > 0 {
            assert(lv[0] == files_view(levels@[0]@));
            return Some(CompactionTask { level: 0, input_files: copy_files(&levels[0]), target_level: 1 });
        }
        let mut best: Option<usize> = None;
        let mut best_size: u64 = 0;
        let mut best_target: u64 = 0;
        let mut l: usize = 1;
        while l < n
            invariant
                1 <= l,
                n == levels@.len(),
                lv == levels_view(levels@),
                n > 0 ==> l <= n,
                n == 0 ==> l == 1,
                forall|j: int| 0 <= j < n ==> level_size(#[trigger] lv[j]) <= u64::MAX,
                match best {
                    Some(b) => best_level(lv, self.base_level_size_bytes as int, self.max_levels as int, l as int) == Some(b as int),
                    None => best_level(lv, self.base_level_size_bytes as int, self.max_levels as int, l as int) is None,
                },
                best matches Some(b) ==> (1 <= b < n && best_size == level_size(lv[b as int])
                    && best_target == level_target(self.base_level_size_bytes as int, b as int)
                    && level_due(lv, self.base_level_size_bytes as int, b as int)),
            decreases n - l,
        {
            let ghost base = self.base_level_size_bytes as int;
            proof {
                assert(lv[l as int] == files_view(levels@[l as int]@));
            }
            let size = level_bytes(&levels[l]);
            let target = target_bytes(self.base_level_size_bytes, l);
            let mut due = false;
            let mut t64: u64 = 0;
            match target {
                Some(t) => {
                    if size > 0 && size as u128 >= t {
                        due = true;
                        t64 = t as u64;
                    }
                },
                None => {},
            }
            if l + 1 < self.max_levels && due {
                proof {
                    lemma_u64_product(size, best_target);
                    lemma_u64_product(best_size, t64);
                }
                let better = match best {
                    None => true,
                    Some(_) => (size as u128) * (best_target as u128) > (best_size as u128) * (t64 as u128),
                };
                if better {
                    best = Some(l);
                    best_size = size;
                    best_target = t64;
                }
            }
            l = l + 1;
        }
        match best {
            Some(b) => {
                proof { assert(lv[b as int] == files_view(levels@[b as int]@)); }
                Some(CompactionTask { level: b, input_files: copy_files(&levels[b]), target_level: b + 1 })
            },
            None => None,
        }
    }
}

/// `vs` is the run a compaction of `all` keeps: sorted by key, holding for
/// every key the version that wins among `all` (none for a dropped deletion).
pub open spec fn survivors(all: Seq<EntryView>, drop_tombstones: bool, vs: Seq<EntryView>) -> bool {
    &&& views_sorted(vs)
    &&& forall|k: Seq<u8>| #[trigger] view_for(vs, k) == compacted_for(all, drop_tombstones, k)
}

impl Compactor {
    /// Deletions are dropped when the target is the last level.
    pub open spec fn drops_tombstones(self, task: CompactionTask) -> bool {
        task.target_level + 1 >= self.max_levels
    }

    /// Merges the images of the task's files and of the overlapping files of the
    /// target level (given in that order): for every key the version with the
    /// highest sequence number is kept, and deletions are dropped when the target
    /// is the last level. The survivors form one table numbered `file_number` on
    /// the target level; the edit removes every input file and adds that table.
    /// Fails exactly when an image cannot be read, or when the run that survives
    /// does not fit a table (`table_fits`: its blocks, its image or its filter).
    pub fn run_compaction(&self, task: &CompactionTask, target_files: &Vec<FileMetaData>, inputs: &Vec<Vec<u8>>,
        options: &Options, file_number: u64) -> (r: Result<CompactionOutput, FlashStoreError>)
        requires
            forall|i: int| 0 <= i < inputs@.len() ==> table_wf(#[trigger] inputs@[i]@),
        ensures
            (forall|i: int| 0 <= i < inputs@.len() ==> (#[trigger] table_contents(inputs@[i]@)) is Some)
                || r is Err,
            r matches Err(e) ==> e is TableError || exists|i: int| 0 <= i < inputs@.len()
                && (#[trigger] table_contents(inputs@[i]@)) is None,
            (forall|i: int| 0 <= i < inputs@.len() ==> (#[trigger] table_contents(inputs@[i]@)) is Some)
                && (forall|vs: Seq<EntryView>| #[trigger] survivors(tables_entries(images(inputs@)), self.drops_tombstones(*task), vs)
                    ==> table_fits(vs, options.block_size as int, options.bloom_bits_per_key as int))
                ==> r is Ok,
            r is Err ==> (exists|i: int| 0 <= i < inputs@.len() && (#[trigger] table_contents(inputs@[i]@)) is None)
                || exists|vs: Seq<EntryView>| #[trigger] survivors(tables_entries(images(inputs@)), self.drops_tombstones(*task), vs)
                    && !table_fits(vs, options.block_size as int, options.bloom_bits_per_key as int),
            r matches Ok(out) ==> ({
                let all = tables_entries(images(inputs@));
                let drop = self.drops_tombstones(*task);
                let dels = removals(task.level, files_view(task.input_files@))
                    + removals(task.target_level, files_view(target_files@));
                &&& out.edit.view().0 is None
                &&& out.edit.view().1 is None
                &&& out.edit.view().3 == dels
                &&& match out.image {
                    Some(img) => table_wf(img@) && table_sound(img@) && (table_contents(img@) matches Some(vs) && {
                        &&& vs.len() > 0
                        &&& views_sorted(vs)
                        &&& forall|k: Seq<u8>| #[trigger] view_for(vs, k) == compacted_for(all, drop, k)
                        &&& out.edit.view().2 == seq![(task.target_level, (file_number, img@.len() as u64, vs[0].0, vs.last().0))]
                    }),
                    None => (forall|k: Seq<u8>| #[trigger] compacted_for(all, drop, k) is None)
                        && out.edit.view().2.len() == 0,
                }
            }),
    {
        let mut all: Vec<Entry> = Vec::new();
        let mut t: usize = 0;
        while t < inputs.len()
            invariant
                t <= inputs@.len(),
                forall|i: int| 0 <= i < inputs@.len() ==> table_wf(#[trigger] inputs@[i]@),
                forall|i: int| 0 <= i < t ==> (#[trigger] table_contents(inputs@[i]@)) is Some,
                entry_views(all@) == tables_entries(images(inputs@).take(t as int)),
            decreases inputs@.len() - t,
        {
            let img = &inputs[t];
            let ghost iv = img@;
            let reader = match TableReader::open(img.clone()) {
                Ok(rd) => rd,
                Err(e) => return Err(e),
            };
            proof { lemma_reader_matches_image(reader, iv); }
            let entries = match reader.read_all_entries() {
                Ok(es) => es,
                Err(e) => return Err(e),
            };
            let ghost before = all@;
            let mut entries = entries;
            all.append(&mut entries);
            proof {
                assert(entry_views(all@) =~= entry_views(before) + table_contents(iv)->0);
                assert(images(inputs@).take(t + 1).drop_last() =~= images(inputs@).take(t as int));
                assert(images(inputs@).take(t + 1).last() == iv);
            }
            t = t + 1;
        }
        proof {
            assert(images(inputs@).take(inputs@.len() as int) =~= images(inputs@));
        }
        let ghost allv = tables_entries(images(inputs@));
        let drop = self.max_levels <= task.target_level || self.max_levels - task.target_level <= 1;
        let merged = compact_entries(&all, drop);
        proof {
            lemma_entry_for_views(merged@);
            assert forall|k: Seq<u8>| #[trigger] view_for(entry_views(merged@), k) == compacted_for(allv, drop, k) by {
                lemma_latest_views(all@, k);
                assert(crate::memtable::skiplist::entry_for(merged@, k) == view_for(entry_views(merged@), k));
            }
            assert forall|a: int, b: int| 0 <= a < b < entry_views(merged@).len() implies
                lex_lt(#[trigger] entry_views(merged@)[a].0, #[trigger] entry_views(merged@)[b].0) by {
                assert(lex_lt(merged@[a].key@, merged@[b].key@));
            }
            assert(survivors(allv, drop, entry_views(merged@)));
        }
        let mut edit = VersionEdit::new();
        let mut i: usize = 0;
        while i < task.input_files.len()
            invariant
                i <= task.input_files@.len(),
                edit.view().0 is None && edit.view().1 is None && edit.view().2.len() == 0,
                edit.view().3 == removals(task.level, files_view(task.input_files@).take(i as int)),
            decreases task.input_files@.len() - i,
        {
            edit.delete_file(task.level, task.input_files[i].file_number);
            assert(removals(task.level, files_view(task.input_files@).take(i + 1))
                =~= removals(task.level, files_view(task.input_files@).take(i as int)).push((task.level, task.input_files@[i as int].file_number)));
            i = i + 1;
        }
        assert(files_view(task.input_files@).take(task.input_files@.len() as int) =~= files_view(task.input_files@));
        let ghost first = edit.view().3;
        let mut j: usize = 0;
        while j < target_files.len()
            invariant
                j <= target_files@.len(),
                edit.view().0 is None && edit.view().1 is None && edit.view().2.len() == 0,
                edit.view().3 == first + removals(task.target_level, files_view(target_files@).take(j as int)),
            decreases target_files@.len() - j,
        {
            edit.delete_file(task.target_level, target_files[j].file_number);
            assert(removals(task.target_level, files_view(target_files@).take(j + 1))
                =~= removals(task.target_level, files_view(target_files@).take(j as int)).push((task.target_level, target_files@[j as int].file_number)));
            j = j + 1;
        }
        assert(files_view(target_files@).take(target_files@.len() as int) =~= files_view(target_files@));
        if merged.len() == 0 {
            proof {
                assert forall|k: Seq<u8>| #[trigger] compacted_for(allv, drop, k) is None by {
                    assert(view_for(entry_views(merged@), k) is None);
                }
            }
            return Ok(CompactionOutput { image: None, edit });
        }
        if !filter_fits_for(merged.len(), options.bloom_bits_per_key) {
            assert(!table_fits(entry_views(merged@), options.block_size as int, options.bloom_bits_per_key as int));
            return Err(FlashStoreError::TableError(String::from_str("filter too large")));
        }
        let mut builder = TableBuilder::new(options.duplicate());
        let mut m: usize = 0;
        let ghost es = merged@;
        proof {
            assert(es.take(0) =~= Seq::<Entry>::empty());
            assert(entry_views(es.take(0)) =~= Seq::<EntryView>::empty());
        }
        while m < merged.len()
            invariant
                m <= merged@.len(),
                es == merged@,
                builder.inv(),
                builder.options.bloom_bits_per_key == options.bloom_bits_per_key,
                builder.options.block_size == options.block_size,
                entry_views(builder.added()) == entry_views(es.take(m as int)),
                build_run(entry_views(es.take(m as int)), options.block_size as int)
                    == Some((builder.offset as int, entry_views(builder.current_entries@))),
                survivors(allv, drop, entry_views(es)),
                drop == self.drops_tombstones(*task),
                allv == tables_entries(images(inputs@)),
                forall|i: int| 0 <= i < inputs@.len() ==> (#[trigger] table_contents(inputs@[i]@)) is Some,
            decreases merged@.len() - m,
        {
            let ghost prev = builder.added();
            let ghost pb = builder;
            let d = merged[m].duplicate();
            proof {
                let c2 = pb.current_entries@.push(d);
                assert(entry_views(es.take(m + 1)).drop_last() =~= entry_views(es.take(m as int)));
                assert(entry_views(es.take(m + 1)).last() == entry_view(d));
                assert(entry_views(c2) =~= entry_views(pb.current_entries@).push(entry_view(d)));
                crate::sstable::builder::lemma_views_size(c2);
            }
            match builder.add(d) {
                Ok(()) => {},
                Err(e) => {
                    proof {
                        assert(entry_views(es).take(m + 1) =~= entry_views(es.take(m + 1)));
                        crate::sstable::builder::lemma_build_run_fails_on(entry_views(es), options.block_size as int, m + 1);
                        assert(!table_fits(entry_views(es), options.block_size as int, options.bloom_bits_per_key as int));
                    }
                    return Err(e);
                },
            }
            proof {
                if sizes_sum(pb.current_entries@.push(d)) < pb.options.block_size {
                    assert(entry_views(builder.current_entries@) =~= entry_views(pb.current_entries@).push(entry_view(d)));
                } else {
                    assert(entry_views(builder.current_entries@) =~= Seq::<EntryView>::empty());
                }
            }
            proof {
                assert(es.take(m + 1) =~= es.take(m as int).push(es[m as int]));
                assert(entry_views(prev.push(d)) =~= entry_views(prev).push(entry_view(d)));
                assert(entry_views(es.take(m + 1)) =~= entry_views(es.take(m as int)).push(entry_view(es[m as int])));
            }
            m = m + 1;
        }
        proof {
            assert(es.take(m as int) =~= es);
            crate::merge::lemma_keys_sorted_views(builder.added(), es);
            crate::sstable::builder::lemma_all_keys_len(builder);
            assert(entry_views(builder.added()).len() == builder.added().len());
        }
        let smallest = merged[0].key.clone();
        let largest = merged[merged.len() - 1].key.clone();
        let image = builder.finish();
        let size = image.len() as u64;
        let meta = FileMetaData { file_number, file_size: size, smallest_key: smallest, largest_key: largest };
        edit.add_file(task.target_level, meta);
        proof {
            assert(edit.view().2 =~= seq![(task.target_level, (file_number, image@.len() as u64, es[0].key@, es.last().key@))]);
            assert(entry_views(es)[0].0 == es[0].key@);
            assert(entry_views(es).last().0 == es.last().key@);
        }
        Ok(CompactionOutput { image: Some(image), edit })
    }
}

/// Whether every level's total bytes fit in `u64`, as `pick_compaction` needs.
#[verifier::loop_isolation(false)]
pub fn level_sizes_fit(levels: &[Vec<FileMetaData>]) -> (r: bool)
    ensures
        r == forall|l: int| 0 <= l < levels@.len() ==> level_size(#[trigger] levels_view(levels@)[l]) <= u64::MAX,
{
    let ghost lv = levels_view(levels@);
    let mut l: usize = 0;
    while l < levels.len()
        invariant
            l <= levels@.len(),
            lv == levels_view(levels@),
            forall|j: int| 0 <= j < l ==> level_size(#[trigger] lv[j]) <= u64::MAX,
        decreases levels@.len() - l,
    {
        let files = &levels[l];
        let ghost fv = files_view(files@);
        assert(lv[l as int] == fv);
        let mut total: u64 = 0;
        let mut i: usize = 0;
        while i < files.len()
            invariant
                i <= files@.len(),
                fv == files_view(files@),
                total == level_size(fv.take(i as int)),
            decreases files@.len() - i,
        {
            assert(fv.take(i + 1).drop_last() =~= fv.take(i as int));
            match total.checked_add(files[i].file_size) {
                Some(t) => { total = t; },
                None => {
                    proof {
                        lemma_level_size_prefix(fv, i + 1);
                        assert(fv.take(i + 1).last() == fv[i as int]);
                        assert(fv[i as int].1 == files@[i as int].file_size);
                        assert(level_size(lv[l as int]) > u64::MAX);
                    }
                    return false;
                },
            }
            i = i + 1;
        }
        assert(fv.take(files@.len() as int) =~= fv);
        l = l + 1;
    }
    true
}

/// Total bytes of a level, which must fit in `u64`.
fn level_bytes(files: &Vec<FileMetaData>) -> (r: u64)
    requires
        level_size(files_view(files@)) <= u64::MAX,
    ensures
        r == level_size(files_view(files@)),
{
    let ghost fv = files_view(files@);
    let mut total: u64 = 0;
    let mut i: usize = 0;
    while i < files.len()
        invariant
            i <= files@.len(),
            fv == files_view(files@),
            level_size(fv) <= u64::MAX,
            total == level_size(fv.take(i as int)),
        decreases files@.len() - i,
    {
        proof {
            assert(fv.take(i + 1).drop_last() =~= fv.take(i as int));
            lemma_level_size_prefix(fv, i + 1);
        }
        total = total + files[i].file_size;
        i = i + 1;
    }
    assert(fv.take(files@.len() as int) =~= fv);
    total
}

/// The byte target of level `level >= 1`, or `None` when it exceeds `u128`.
fn target_bytes(base: usize, level: usize) -> (r: Option<u128>)
    requires
        level >= 1,
    ensures
        match r {
            Some(t) => t == level_target(base as int, level as int),
            None => level_target(base as int, level as int) > u128::MAX,
        },
{
    let mut p: u128 = 1;
    let mut e: usize = 1;
    while e < level
        invariant
            1 <= e <= level,
            p == pow10((e - 1) as nat),
        decreases level - e,
    {
        match p.checked_mul(10) {
            Some(q) => { p = q; },
            None => {
                proof {
                    lemma_pow10_grows(e as nat, (level - 1) as nat);
                    if base > 0 {
                        lemma_mul_ge(base as int, pow10((level - 1) as nat));
                    }
                }
                if base == 0 {
                    return Some(0);
                }
                return None;
            },
        }
        e = e + 1;
    }
    match (base as u128).checked_mul(p) {
        Some(t) => Some(t),
        None => None,
    }
}

/// A picked level exists and, unless it is level 0, is due and not the last.
pub proof fn lemma_picked_level(levels: Seq<Seq<FileView>>, base: int, max_levels: int, trigger: int)
    ensures
        picked_level(levels, base, max_levels, trigger) matches Some(l) ==> 0 <= l < levels.len()
            && l + 1 < max_levels && levels[l].len() > 0,
{
    if !(levels.len() > 0 && 1 < max_levels && levels[0].len() >= trigger && levels[0].len() > 0) {
        lemma_best_level(levels, base, max_levels, levels.len() as int);
    }
}

proof fn lemma_best_level(levels: Seq<Seq<FileView>>, base: int, max_levels: int, n: int)
    requires
        n <= levels.len(),
    ensures
        best_level(levels, base, max_levels, n) matches Some(l) ==> 1 <= l < n && l + 1 < max_levels
            && level_due(levels, base, l) && levels[l].len() > 0,
    decreases n,
{
    if n > 1 {
        lemma_best_level(levels, base, max_levels, n - 1);
        if levels[n - 1].len() == 0 {
            assert(level_size(levels[n - 1]) == 0);
        }
    }
}

proof fn lemma_u64_product(a: u64, b: u64)
    ensures
        (a as int) * (b as int) <= u128::MAX,
{
    assert((a as int) * (b as int) <= (u64::MAX as int) * (u64::MAX as int)) by (nonlinear_arith)
        requires a <= u64::MAX, b <= u64::MAX, a >= 0, b >= 0;
}

proof fn lemma_pow10_grows(a: nat, b: nat)
    requires
        a <= b,
    ensures
        pow10(b) >= pow10(a) >= 1,
    decreases b - a,
{
    lemma_pow10_pos(a);
    if a < b {
        lemma_pow10_grows(a, (b - 1) as nat);
        lemma_pow10_pos((b - 1) as nat);
    }
}

proof fn lemma_pow10_pos(a: nat)
    ensures
        pow10(a) >= 1,
    decreases a,
{
    if a > 0 {
        lemma_pow10_pos((a - 1) as nat);
    }
}

proof fn lemma_mul_ge(a: int, b: int)
    requires
        a >= 1,
        b >= 1,
    ensures
        a * b >= b,
{
    assert(a * b >= b) by (nonlinear_arith)
        requires a >= 1, b >= 1;
}

proof fn lemma_level_size_prefix(fv: Seq<FileView>, i: int)
    requires
        0 <= i <= fv.len(),
    ensures
        level_size(fv.take(i)) <= level_size(fv),
        level_size(fv.take(i)) >= 0,
    decreases fv.len() - i,
{
    if i < fv.len() {
        lemma_level_size_prefix(fv, i + 1);
        assert(fv.take(i + 1).drop_last() =~= fv.take(i));
    } else {
        assert(fv.take(i) =~= fv);
    }
    lemma_level_size_nonneg(fv.take(i));
}

proof fn lemma_level_size_nonneg(fv: Seq<FileView>)
    ensures
        level_size(fv) >= 0,
    decreases fv.len(),
{
    if fv.len() > 0 {
        lemma_level_size_nonneg(fv.drop_last());
    }
}

} // verus!
