//! Engine options and their builder.
use vstd::prelude::*;

verus! {

/// Tuning options of a store.
#[derive(Debug, Clone)]
pub struct Options {
    pub dir: String,
    pub memtable_size: usize,
    pub block_size: usize,
    pub bloom_bits_per_key: usize,
    pub max_levels: usize,
    pub base_level_size_bytes: usize,
    pub sync_wal: bool,
    pub block_cache_size: usize,
    pub create_if_missing: bool,
}

/// The default options, with every size in bytes.
pub open spec fn is_default_options(o: Options) -> bool {
    &&& o.dir@ == "./data"@
    &&& o.memtable_size == 4 * 1024 * 1024
    &&& o.block_size == 4 * 1024
    &&& o.bloom_bits_per_key == 10
    &&& o.max_levels == 7
    &&& o.base_level_size_bytes == 10 * 1024 * 1024
    &&& !o.sync_wal
    &&& o.block_cache_size == 64 * 1024 * 1024
    &&& o.create_if_missing
}

impl Default for Options {
    fn default() -> (o: Options)
        ensures
            is_default_options(o),
    {
        Options {
            dir: String::from_str("./data"),
            memtable_size: 4 * 1024 * 1024,
            block_size: 4 * 1024,
            bloom_bits_per_key: 10,
            max_levels: 7,
            base_level_size_bytes: 10 * 1024 * 1024,
            sync_wal: false,
            block_cache_size: 64 * 1024 * 1024,
            create_if_missing: true,
        }
    }
}

impl Options {
    /// Copies the options field by field.
    pub fn duplicate(&self) -> (r: Options)
        ensures
            r.dir@ == self.dir@,
            r.memtable_size == self.memtable_size,
            r.block_size == self.block_size,
            r.bloom_bits_per_key == self.bloom_bits_per_key,
            r.max_levels == self.max_levels,
            r.base_level_size_bytes == self.base_level_size_bytes,
            r.sync_wal == self.sync_wal,
            r.block_cache_size == self.block_cache_size,
            r.create_if_missing == self.create_if_missing,
    {
        Options {
            dir: self.dir.clone(),
            memtable_size: self.memtable_size,
            block_size: self.block_size,
            bloom_bits_per_key: self.bloom_bits_per_key,
            max_levels: self.max_levels,
            base_level_size_bytes: self.base_level_size_bytes,
            sync_wal: self.sync_wal,
            block_cache_size: self.block_cache_size,
            create_if_missing: self.create_if_missing,
        }
    }
}

/// Builder that starts from the default options and overrides one field per call.
pub struct OptionsBuilder {
    pub options: Options,
}

impl OptionsBuilder {
    pub fn new() -> (b: OptionsBuilder)
        ensures
            is_default_options(b.options),
    {
        OptionsBuilder { options: Options::default() }
    }

    pub fn dir(self, dir: String) -> (b: OptionsBuilder)
        ensures
            b.options == (Options { dir, ..self.options }),
    {
        let mut s = self;
        s.options.dir = dir;
        s
    }

    pub fn memtable_size(self, size: usize) -> (b: OptionsBuilder)
        ensures
            b.options == (Options { memtable_size: size, ..self.options }),
    {
        let mut s = self;
        s.options.memtable_size = size;
        s
    }

    pub fn block_size(self, size: usize) -> (b: OptionsBuilder)
        ensures
            b.options == (Options { block_size: size, ..self.options }),
    {
        let mut s = self;
        s.options.block_size = size;
        s
    }

    pub fn bloom_bits_per_key(self, bits: usize) -> (b: OptionsBuilder)
        ensures
            b.options == (Options { bloom_bits_per_key: bits, ..self.options }),
    {
        let mut s = self;
        s.options.bloom_bits_per_key = bits;
        s
    }

    pub fn max_levels(self, levels: usize) -> (b: OptionsBuilder)
        ensures
            b.options == (Options { max_levels: levels, ..self.options }),
    {
        let mut s = self;
        s.options.max_levels = levels;
        s
    }

    pub fn base_level_size_bytes(self, bytes: usize) -> (b: OptionsBuilder)
        ensures
            b.options == (Options { base_level_size_bytes: bytes, ..self.options }),
    {
        let mut s = self;
        s.options.base_level_size_bytes = bytes;
        s
    }

    pub fn sync_wal(self, sync: bool) -> (b: OptionsBuilder)
        ensures
            b.options == (Options { sync_wal: sync, ..self.options }),
    {
        let mut s = self;
        s.options.sync_wal = sync;
        s
    }

    pub fn block_cache_size(self, size: usize) -> (b: OptionsBuilder)
        ensures
            b.options == (Options { block_cache_size: size, ..self.options }),
    {
        let mut s = self;
        s.options.block_cache_size = size;
        s
    }

    pub fn create_if_missing(self, create: bool) -> (b: OptionsBuilder)
        ensures
            b.options == (Options { create_if_missing: create, ..self.options }),
    {
        let mut s = self;
        s.options.create_if_missing = create;
        s
    }

    pub fn build(self) -> (o: Options)
        ensures
            o == self.options,
    {
        self.options
    }
}

} // verus!
