//! Table files per level, and the edits that change them.
use vstd::prelude::*;

verus! {

/// A table file: its number, size in bytes, and key range.
#[derive(Debug, Clone, PartialEq, Eq)]
pub struct FileMetaData {
    pub file_number: u64,
    pub file_size: u64,
    pub smallest_key: Vec<u8>,
    pub largest_key: Vec<u8>,
}

pub type FileView = (u64, u64, Seq<u8>, Seq<u8>);

pub open spec fn file_view(f: FileMetaData) -> FileView {
    (f.file_number, f.file_size, f.smallest_key@, f.largest_key@)
}

pub open spec fn files_view(fs: Seq<FileMetaData>) -> Seq<FileView> {
    fs.map_values(|f: FileMetaData| file_view(f))
}

pub open spec fn levels_view(ls: Seq<Vec<FileMetaData>>) -> Seq<Seq<FileView>> {
    ls.map_values(|l: Vec<FileMetaData>| files_view(l@))
}

impl FileMetaData {
    /// Copies the record field by field.
    pub fn duplicate(&self) -> (r: FileMetaData)
        ensures
            file_view(r) == file_view(*self),
    {
        FileMetaData {
            file_number: self.file_number,
            file_size: self.file_size,
            smallest_key: self.smallest_key.clone(),
            largest_key: self.largest_key.clone(),
        }
    }
}

/// A change to the file set: files added and removed per level, and optionally
/// the next file number and the last sequence number.
#[derive(Debug, Clone, PartialEq, Eq)]
pub struct VersionEdit {
    pub next_file_number: Option<u64>,
    pub last_sequence: Option<u64>,
    pub new_files: Vec<(usize, FileMetaData)>,
    pub deleted_files: Vec<(usize, u64)>,
}

pub type EditView = (Option<u64>, Option<u64>, Seq<(usize, FileView)>, Seq<(usize, u64)>);

pub open spec fn new_files_view(nf: Seq<(usize, FileMetaData)>) -> Seq<(usize, FileView)> {
    nf.map_values(|p: (usize, FileMetaData)| (p.0, file_view(p.1)))
}

impl VersionEdit {
    pub open spec fn view(self) -> EditView {
        (self.next_file_number, self.last_sequence, new_files_view(self.new_files@), self.deleted_files@)
    }

    pub fn new() -> (e: VersionEdit)
        ensures
            e.view() == (None::<u64>, None::<u64>, Seq::<(usize, FileView)>::empty(), Seq::<(usize, u64)>::empty()),
    {
        let e = VersionEdit { next_file_number: None, last_sequence: None, new_files: Vec::new(), deleted_files: Vec::new() };
        assert(new_files_view(e.new_files@) =~= Seq::<(usize, FileView)>::empty());
        e
    }

    pub fn add_file(&mut self, level: usize, meta: FileMetaData)
        ensures
            final(self).view() == (old(self).view().0, old(self).view().1,
                old(self).view().2.push((level, file_view(meta))), old(self).view().3),
    {
        self.new_files.push((level, meta));
        assert(new_files_view(self.new_files@) =~= new_files_view(old(self).new_files@).push((level, file_view(meta))));
    }

    pub fn delete_file(&mut self, level: usize, file_number: u64)
        ensures
            final(self).view() == (old(self).view().0, old(self).view().1,
                old(self).view().2, old(self).view().3.push((level, file_number))),
    {
        self.deleted_files.push((level, file_number));
    }
}

/// The table files of every level.
#[derive(Debug, Clone)]
pub struct Version {
    pub levels: Vec<Vec<FileMetaData>>,
}

impl Version {
    pub open spec fn view(self) -> Seq<Seq<FileView>> {
        levels_view(self.levels@)
    }

    pub fn new(max_levels: usize) -> (v: Version)
        ensures
            v.view().len() == max_levels,
            forall|i: int| 0 <= i < max_levels ==> #[trigger] v.view()[i].len() == 0,
    {
        let mut levels: Vec<Vec<FileMetaData>> = Vec::new();
        let mut i: usize = 0;
        while i < max_levels
            invariant
                i <= max_levels,
                levels@.len() == i,
                forall|j: int| 0 <= j < i ==> #[trigger] levels@[j]@.len() == 0,
            decreases max_levels - i,
        {
            levels.push(Vec::new());
            i = i + 1;
        }
        Version { levels }
    }

    /// Copies the file lists level by level.
    pub fn duplicate(&self) -> (v: Version)
        ensures
            v.view() == self.view(),
    {
        let mut levels: Vec<Vec<FileMetaData>> = Vec::new();
        let mut i: usize = 0;
        while i < self.levels.len()
            invariant
                i <= self.levels@.len(),
                levels@.len() == i,
                forall|j: int| 0 <= j < i ==> #[trigger] files_view(levels@[j]@) == files_view(self.levels@[j]@),
            decreases self.levels@.len() - i,
        {
            levels.push(copy_files(&self.levels[i]));
            i = i + 1;
        }
        let v = Version { levels };
        assert(v.view() =~= self.view());
        v
    }
}

pub fn copy_files(fs: &Vec<FileMetaData>) -> (r: Vec<FileMetaData>)
    ensures
        files_view(r@) == files_view(fs@),
{
    let mut out: Vec<FileMetaData> = Vec::new();
    let mut i: usize = 0;
    while i < fs.len()
        invariant
            i <= fs@.len(),
            out@.len() == i,
            forall|j: int| 0 <= j < i ==> #[trigger] file_view(out@[j]) == file_view(fs@[j]),
        decreases fs@.len() - i,
    {
        out.push(fs[i].duplicate());
        i = i + 1;
    }
    assert(files_view(out@) =~= files_view(fs@));
    out
}

} // verus!
