//! Parsing of retrieval command options.
use vstd::prelude::*;
use crate::cli::OutputFormat;
use crate::rag::types::{ChunkingConfig, ChunkingStrategy};
use crate::text::{str_eq, str_eq_ignore_ascii_case, eq_ignoring_ascii_case, str_to_lowercase, lowercase_of, chars_of,
    string_of, trim_chars, trim_range};

verus! {

/// JSON when the flag is set or the name is "json" in any ASCII case, TSV for
/// "tsv", plain text otherwise.
pub fn parse_output_format(s: &str, json_flag: bool) -> (r: OutputFormat)
    ensures
        r == (if json_flag || eq_ignoring_ascii_case(s@, "json"@) {
            OutputFormat::Json
        } else if eq_ignoring_ascii_case(s@, "tsv"@) {
            OutputFormat::Tsv
        } else {
            OutputFormat::Text
        }),
{
    if json_flag || str_eq_ignore_ascii_case(s, "json") {
        OutputFormat::Json
    } else if str_eq_ignore_ascii_case(s, "tsv") {
        OutputFormat::Tsv
    } else {
        OutputFormat::Text
    }
}

/// The chunking configuration a strategy name (taken in lower case) selects:
/// character or token windows with the given or default size and overlap,
/// sentences, or paragraphs for any other name; ten characters at least per chunk.
pub open spec fn chunk_config_for(name: Seq<char>, size: Option<usize>, overlap: Option<usize>) -> ChunkingConfig {
    let strategy = if name == "fixed-chars"@ || name == "chars"@ {
        ChunkingStrategy::FixedChars {
            size: match size { Some(s) => s, None => 500 },
            overlap: match overlap { Some(o) => o, None => 50 },
        }
    } else if name == "fixed-tokens"@ || name == "tokens"@ {
        ChunkingStrategy::FixedTokens {
            size: match size { Some(s) => s, None => 200 },
            overlap: match overlap { Some(o) => o, None => 20 },
        }
    } else if name == "sentences"@ || name == "sentence"@ {
        ChunkingStrategy::Sentence
    } else {
        ChunkingStrategy::Paragraph
    };
    ChunkingConfig { strategy, min_chunk_size: 10 }
}

/// Builds the chunking configuration named by `strategy`.
pub fn parse_chunk_config(strategy: &str, chunk_size: Option<usize>, chunk_overlap: Option<usize>) -> (r: ChunkingConfig)
    ensures
        r == chunk_config_for(lowercase_of(strategy@), chunk_size, chunk_overlap),
{
    let lowered = str_to_lowercase(strategy);
    let name = lowered.as_str();
    let s = if str_eq(name, "fixed-chars") || str_eq(name, "chars") {
        ChunkingStrategy::FixedChars {
            size: match chunk_size { Some(s) => s, None => 500 },
            overlap: match chunk_overlap { Some(o) => o, None => 50 },
        }
    } else if str_eq(name, "fixed-tokens") || str_eq(name, "tokens") {
        ChunkingStrategy::FixedTokens {
            size: match chunk_size { Some(s) => s, None => 200 },
            overlap: match chunk_overlap { Some(o) => o, None => 20 },
        }
    } else if str_eq(name, "sentences") || str_eq(name, "sentence") {
        ChunkingStrategy::Sentence
    } else {
        ChunkingStrategy::Paragraph
    };
    ChunkingConfig { strategy: s, min_chunk_size: 10 }
}

/// Position of the first `c` in `cs`, if any.
pub open spec fn first_pos(cs: Seq<char>, c: char) -> Option<int>
    decreases cs.len(),
{
    if cs.len() == 0 {
        None
    } else if cs[0] == c {
        Some(0)
    } else {
        match first_pos(cs.drop_first(), c) {
            Some(i) => Some(i + 1),
            None => None,
        }
    }
}

/// `key=value` read as the text before the first `=` and the text after it,
/// each without the white space around it; `None` without an `=`.
pub open spec fn assignment_of(cs: Seq<char>) -> Option<(Seq<char>, Seq<char>)> {
    match first_pos(cs, '=') {
        Some(i) => Some((trim_chars(cs.take(i)), trim_chars(cs.skip(i + 1)))),
        None => None,
    }
}

proof fn lemma_first_pos_bounds(cs: Seq<char>, c: char)
    ensures
        first_pos(cs, c) matches Some(i) ==> 0 <= i < cs.len() && cs[i] == c,
    decreases cs.len(),
{
    if cs.len() > 0 && cs[0] != c {
        lemma_first_pos_bounds(cs.drop_first(), c);
    }
}

/// Splits a `key=value` option at its first `=` and trims both sides.
pub fn split_assignment(item: &str) -> (r: Option<(String, String)>)
    ensures
        match assignment_of(item@) {
            Some((k, v)) => r matches Some(p) && p.0@ == k && p.1@ == v,
            None => r is None,
        },
{
    let cs = chars_of(item);
    let n = cs.len();
    let mut i: usize = 0;
    assert(cs@.skip(0) =~= cs@);
    while i < n && cs[i] != '='
        invariant
            n == cs@.len(),
            cs@ == item@,
            i <= n,
            first_pos(cs@, '=') == (match first_pos(cs@.skip(i as int), '=') {
                Some(j) => Some(j + i),
                None => None::<int>,
            }),
        decreases n - i,
    {
        assert(cs@.skip(i as int).drop_first() =~= cs@.skip(i + 1));
        i = i + 1;
    }
    if i == n {
        assert(cs@.skip(n as int) =~= Seq::<char>::empty());
        return None;
    }
    assert(cs@.skip(i as int)[0] == '=');
    let (a, b) = trim_range(&cs, 0, i);
    let (c, d) = trim_range(&cs, i + 1, n);
    assert(cs@.subrange(0, i as int) =~= cs@.take(i as int));
    assert(cs@.subrange(i + 1, n as int) =~= cs@.skip(i + 1));
    Some((string_of(&cs, a, b), string_of(&cs, c, d)))
}

/// The pieces of `cs` between the separators, in order (one more piece than
/// there are separators).
pub open spec fn split_pieces(cs: Seq<char>, sep: char) -> Seq<Seq<char>>
    decreases cs.len(),
{
    if cs.len() == 0 {
        seq![Seq::<char>::empty()]
    } else {
        let p = split_pieces(cs.drop_last(), sep);
        if cs.last() == sep {
            p.push(Seq::empty())
        } else {
            p.update(p.len() - 1, p.last().push(cs.last()))
        }
    }
}

proof fn lemma_split_pieces_nonempty(cs: Seq<char>, sep: char)
    ensures
        split_pieces(cs, sep).len() >= 1,
    decreases cs.len(),
{
    if cs.len() > 0 {
        lemma_split_pieces_nonempty(cs.drop_last(), sep);
    }
}

/// The comma-separated items of a list option, each without the white space
/// around it.
pub fn split_list(text: &str) -> (r: Vec<String>)
    ensures
        r@.map_values(|s: String| s@) == split_pieces(text@, ',').map_values(|p: Seq<char>| trim_chars(p)),
{
    let cs = chars_of(text);
    let n = cs.len();
    let mut out: Vec<String> = Vec::new();
    let mut start: usize = 0;
    let mut i: usize = 0;
    assert(cs@.take(0) =~= Seq::<char>::empty());
    while i < n
        invariant
            n == cs@.len(),
            cs@ == text@,
            start <= i <= n,
            ({
                let p = split_pieces(cs@.take(i as int), ',');
                &&& p.len() == out@.len() + 1
                &&& p.last() == cs@.subrange(start as int, i as int)
                &&& out@.map_values(|s: String| s@) == p.drop_last().map_values(|q: Seq<char>| trim_chars(q))
            }),
        decreases n - i,
    {
        let ghost p0 = split_pieces(cs@.take(i as int), ',');
        proof {
            lemma_split_pieces_nonempty(cs@.take(i as int), ',');
            assert(cs@.take(i + 1).drop_last() =~= cs@.take(i as int));
            assert(cs@.take(i + 1).last() == cs@[i as int]);
        }
        if cs[i] == ',' {
            let (a, b) = trim_range(&cs, start, i);
            let piece = string_of(&cs, a, b);
            let ghost before = out@;
            out.push(piece);
            proof {
                let p1 = split_pieces(cs@.take(i + 1), ',');
                assert(p1 == p0.push(Seq::<char>::empty()));
                assert(p1.drop_last() =~= p0);
                assert(p0 =~= p0.drop_last().push(p0.last()));
                assert(out@.map_values(|s: String| s@) =~= before.map_values(|s: String| s@).push(piece@));
                assert(p0.map_values(|q: Seq<char>| trim_chars(q)) =~= p0.drop_last().map_values(|q: Seq<char>| trim_chars(q)).push(trim_chars(p0.last())));
                assert(cs@.subrange(i + 1, i + 1) =~= Seq::<char>::empty());
            }
            start = i + 1;
        } else {
            proof {
                let p1 = split_pieces(cs@.take(i + 1), ',');
                assert(p1 == p0.update(p0.len() - 1, p0.last().push(cs@[i as int])));
                assert(p1.drop_last() =~= p0.drop_last());
                assert(cs@.subrange(start as int, i + 1) =~= cs@.subrange(start as int, i as int).push(cs@[i as int]));
            }
        }
        i = i + 1;
    }
    let ghost p = split_pieces(cs@.take(n as int), ',');
    let (a, b) = trim_range(&cs, start, n);
    let ghost before = out@;
    out.push(string_of(&cs, a, b));
    proof {
        assert(cs@.take(n as int) =~= cs@);
        assert(p =~= p.drop_last().push(p.last()));
        assert(p.map_values(|q: Seq<char>| trim_chars(q)) =~= p.drop_last().map_values(|q: Seq<char>| trim_chars(q)).push(trim_chars(p.last())));
        assert(out@.map_values(|s: String| s@) =~= before.map_values(|s: String| s@).push(out@.last()@));
    }
    out
}

} // verus!
