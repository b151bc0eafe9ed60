//! Command-line helpers: line splitting, option parsing and output formats.
pub mod repl;
pub mod rag;
pub mod formatter;
pub mod commands;
pub mod batch_parser;
pub mod inspect;

use vstd::prelude::*;
use crate::config::{Options, OptionsBuilder, is_default_options};

verus! {

/// How command output is rendered.
#[derive(Debug, Clone, Copy, PartialEq, Eq, Structural)]
pub enum OutputFormat {
    Text,
    Json,
    Tsv,
}

impl Default for OutputFormat {
    fn default() -> (r: OutputFormat)
        ensures
            r == OutputFormat::Text,
    {
        OutputFormat::Text
    }
}

/// Options shared by every command.
#[derive(Debug, Clone, PartialEq, Eq)]
pub struct GlobalOpts {
    pub path: String,
    pub memtable_size: Option<usize>,
    pub block_size: Option<usize>,
    pub sync_wal: bool,
    pub block_cache_size: Option<usize>,
    pub json: bool,
    pub quiet: bool,
}

impl Default for GlobalOpts {
    fn default() -> (r: GlobalOpts)
        ensures
            r.path@ == "./data"@,
            r.memtable_size is None,
            r.block_size is None,
            !r.sync_wal,
            r.block_cache_size is None,
            !r.json,
            !r.quiet,
    {
        GlobalOpts {
            path: String::from_str("./data"),
            memtable_size: None,
            block_size: None,
            sync_wal: false,
            block_cache_size: None,
            json: false,
            quiet: false,
        }
    }
}

impl GlobalOpts {
    /// JSON when the JSON flag is set, plain text otherwise.
    pub fn effective_format(&self) -> (r: OutputFormat)
        ensures
            r == (if self.json { OutputFormat::Json } else { OutputFormat::Text }),
    {
        if self.json {
            OutputFormat::Json
        } else {
            OutputFormat::Text
        }
    }
}

/// The options a store is opened with from the command line: the defaults,
/// with the directory given and each size or flag that was given.
pub fn options_for(opts: &GlobalOpts) -> (o: Options)
    ensures
        o.dir@ == opts.path@,
        o.memtable_size == (match opts.memtable_size { Some(m) => m as int, None => 4 * 1024 * 1024int }),
        o.block_size == (match opts.block_size { Some(b) => b as int, None => 4 * 1024int }),
        o.sync_wal == opts.sync_wal,
        o.block_cache_size == (match opts.block_cache_size { Some(c) => c as int, None => 64 * 1024 * 1024int }),
        o.bloom_bits_per_key == 10,
        o.max_levels == 7,
        o.base_level_size_bytes == 10 * 1024 * 1024,
        o.create_if_missing,
{
    let mut builder = OptionsBuilder::new().dir(opts.path.clone());
    if let Some(ms) = opts.memtable_size {
        builder = builder.memtable_size(ms);
    }
    if let Some(bs) = opts.block_size {
        builder = builder.block_size(bs);
    }
    if opts.sync_wal {
        builder = builder.sync_wal(true);
    }
    if let Some(cs) = opts.block_cache_size {
        builder = builder.block_cache_size(cs);
    }
    builder.build()
}

/// The rows a scan prints: in reverse order where asked, then at most
/// `limit` of them.
pub fn scan_rows(rows: Vec<(Vec<u8>, Vec<u8>)>, reverse: bool, limit: Option<usize>) -> (r: Vec<(Vec<u8>, Vec<u8>)>)
    ensures
        ({
            let ordered = if reverse { rows@.reverse() } else { rows@ };
            r@ == match limit {
                Some(l) => if l < ordered.len() { ordered.take(l as int) } else { ordered },
                None => ordered,
            }
        }),
{
    let ghost ordered = if reverse { rows@.reverse() } else { rows@ };
    let mut out: Vec<(Vec<u8>, Vec<u8>)> = Vec::new();
    if reverse {
        let mut rest = rows;
        let n = rest.len();
        while rest.len() > 0
            invariant
                ordered.len() == n,
                rest@.len() + out@.len() == n,
                out@ == ordered.take(out@.len() as int),
                rest@ == ordered.skip(out@.len() as int).reverse(),
            decreases rest@.len(),
        {
            let ghost i = out@.len() as int;
            let ghost before = rest@;
            let x = rest.pop().unwrap();
            assert(before.last() == ordered[i]);
            assert(ordered.take(i + 1) =~= ordered.take(i).push(ordered[i]));
            assert(rest@ =~= ordered.skip(i + 1).reverse());
            out.push(x);
        }
        assert(ordered.take(n as int) =~= ordered);
    } else {
        out = rows;
    }
    if let Some(l) = limit {
        out.truncate(l);
    }
    out
}

} // verus!
