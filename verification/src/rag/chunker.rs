//! Cutting documents into chunks: fixed windows of characters or words,
//! paragraphs and sentences. A chunk is reported with the character offsets
//! of the text it was cut from.
use vstd::prelude::*;
use vstd::utf8::{encode_utf8, encode_scalar};
use crate::text::{chars_of, string_of, trim_chars, trim_start, trim_end, trim_range, is_white_space, char_is_whitespace};
use crate::rag::types::{ChunkingConfig, ChunkingStrategy};

verus! {

/// A chunk: character position where it starts, character position where it ends, and its text.
pub type ChunkView = (int, int, Seq<char>);

/// The number of bytes UTF-8 takes for a character.
pub open spec fn utf8_width(c: char) -> nat {
    let u = c as u32;
    if u <= 0x7F {
        1
    } else if u <= 0x7FF {
        2
    } else if u <= 0xFFFF {
        3
    } else {
        4
    }
}

/// The number of bytes UTF-8 takes for characters.
pub open spec fn byte_len(cs: Seq<char>) -> nat
    decreases cs.len(),
{
    if cs.len() == 0 {
        0
    } else {
        byte_len(cs.drop_last()) + utf8_width(cs.last())
    }
}

/// The byte offset of the character at position `k`.
pub open spec fn byte_at(cs: Seq<char>, k: int) -> int {
    byte_len(cs.take(k)) as int
}

pub open spec fn chunk_views(v: Seq<(usize, usize, String)>) -> Seq<ChunkView> {
    v.map_values(|c: (usize, usize, String)| (c.0 as int, c.1 as int, c.2@))
}

/// Characters take no bytes only where there are none.
pub proof fn lemma_byte_len_positive(cs: Seq<char>)
    ensures
        (byte_len(cs) == 0) == (cs.len() == 0),
{
}

/// The byte length of the characters is that of their UTF-8 encoding.
pub proof fn lemma_byte_len_utf8(cs: Seq<char>)
    ensures
        byte_len(cs) == encode_utf8(cs).len(),
    decreases cs.len(),
{
    if cs.len() > 0 {
        lemma_byte_len_utf8(cs.drop_last());
        lemma_encode_push(cs.drop_last(), cs.last());
        assert(cs.drop_last().push(cs.last()) =~= cs);
        lemma_width_scalar(cs.last());
    }
}

proof fn lemma_width_scalar(c: char)
    ensures
        encode_scalar(c as u32).len() == utf8_width(c),
{
    vstd::utf8::char_is_scalar(c);
}

proof fn lemma_encode_push(a: Seq<char>, c: char)
    ensures
        encode_utf8(a.push(c)) == encode_utf8(a) + encode_scalar(c as u32),
    decreases a.len(),
{
    if a.len() == 0 {
        assert(a.push(c).drop_first() =~= Seq::<char>::empty());
        assert(encode_utf8(Seq::<char>::empty()) =~= Seq::<u8>::empty());
        assert(a.push(c)[0] == c);
        assert(encode_utf8(a.push(c)) =~= encode_utf8(a) + encode_scalar(c as u32));
    } else {
        lemma_encode_push(a.drop_first(), c);
        assert(a.push(c).drop_first() =~= a.drop_first().push(c));
        assert(encode_utf8(a.push(c)) =~= encode_utf8(a) + encode_scalar(c as u32));
    }
}

/// Byte lengths add up over concatenation.
pub proof fn lemma_byte_len_concat(a: Seq<char>, b: Seq<char>)
    ensures
        byte_len(a + b) == byte_len(a) + byte_len(b),
    decreases b.len(),
{
    if b.len() > 0 {
        lemma_byte_len_concat(a, b.drop_last());
        assert((a + b).drop_last() =~= a + b.drop_last());
    } else {
        assert(a + b =~= a);
    }
}

/// The bytes of `cs[a..b]` are the difference of the offsets of `b` and `a`.
pub proof fn lemma_byte_range(cs: Seq<char>, a: int, b: int)
    requires
        0 <= a <= b <= cs.len(),
    ensures
        byte_len(cs.subrange(a, b)) == byte_at(cs, b) - byte_at(cs, a),
        byte_at(cs, a) <= byte_at(cs, b) <= byte_len(cs),
{
    lemma_byte_len_concat(cs.take(a), cs.subrange(a, b));
    assert(cs.take(a) + cs.subrange(a, b) =~= cs.take(b));
    lemma_byte_len_concat(cs.take(b), cs.subrange(b, cs.len() as int));
    assert(cs.take(b) + cs.subrange(b, cs.len() as int) =~= cs);
}

/// The number of bytes UTF-8 takes for `c`.
pub fn char_width(c: char) -> (r: usize)
    ensures
        r == utf8_width(c),
{
    let u = c as u32;
    if u <= 0x7F {
        1
    } else if u <= 0x7FF {
        2
    } else if u <= 0xFFFF {
        3
    } else {
        4
    }
}

/// The byte offset of every character position of `text`, its end included.
fn byte_offsets(text: &str, cs: &Vec<char>) -> (offs: Vec<usize>)
    requires
        cs@ == text@,
    ensures
        offs@.len() == cs@.len() + 1,
        forall|k: int| 0 <= k <= cs@.len() ==> #[trigger] offs@[k] == byte_at(cs@, k),
{
    let total = text.as_bytes().len();
    proof {
        lemma_byte_len_utf8(cs@);
    }
    let mut offs: Vec<usize> = Vec::new();
    offs.push(0);
    assert(cs@.take(0) =~= Seq::<char>::empty());
    let mut acc: usize = 0;
    let mut i: usize = 0;
    while i < cs.len()
        invariant
            i <= cs@.len(),
            total == byte_len(cs@),
            offs@.len() == i + 1,
            acc == byte_at(cs@, i as int),
            forall|k: int| 0 <= k <= i ==> #[trigger] offs@[k] == byte_at(cs@, k),
        decreases cs@.len() - i,
    {
        proof {
            lemma_byte_range(cs@, (i + 1) as int, cs@.len() as int);
            assert(cs@.take(i + 1).drop_last() =~= cs@.take(i as int));
            assert(cs@.take(cs@.len() as int) =~= cs@);
        }
        acc = acc + char_width(cs[i]);
        offs.push(acc);
        i = i + 1;
    }
    offs
}

/// Whether a chunk is kept: its text without surrounding white space reaches
/// `min` bytes, or it is the last window and nothing was kept before it.
pub open spec fn kept(slice: Seq<char>, min: nat, none_yet: bool, last: bool) -> bool {
    byte_len(trim_chars(slice)) >= min || (none_yet && last)
}

/// The step between consecutive windows: the size less the overlap, the
/// overlap being at most one less than the size, and at least one.
pub open spec fn window_step(size: nat, overlap: nat) -> nat {
    let eff = if overlap < size - 1 { overlap } else { (size - 1) as nat };
    if size - eff >= 1 { (size - eff) as nat } else { 1 }
}

/// Windows of `size` characters from position `start` on, each `step`
/// characters after the one before, appended to `acc`; the last window ends
/// at the end of the text.
pub open spec fn char_windows_from(cs: Seq<char>, size: nat, overlap: nat, min: nat, start: nat, acc: Seq<ChunkView>) -> Seq<ChunkView>
    decreases cs.len() - start,
{
    if size == 0 || start >= cs.len() {
        acc
    } else {
        let end = if start + size < cs.len() { start + size } else { cs.len() as nat };
        let slice = cs.subrange(start as int, end as int);
        let acc2 = if kept(slice, min, acc.len() == 0, end >= cs.len()) {
            acc.push((start as int, end as int, slice))
        } else {
            acc
        };
        if end >= cs.len() {
            acc2
        } else {
            char_windows_from(cs, size, overlap, min, start + window_step(size, overlap), acc2)
        }
    }
}

/// Chunks of `size` characters, consecutive ones sharing `overlap` characters.
pub open spec fn char_windows(cs: Seq<char>, size: nat, overlap: nat, min: nat) -> Seq<ChunkView> {
    char_windows_from(cs, size, overlap, min, 0, Seq::empty())
}

fn trimmed_bytes(cs: &Vec<char>, offs: &Vec<usize>, from: usize, to: usize) -> (r: usize)
    requires
        from <= to <= cs@.len(),
        offs@.len() == cs@.len() + 1,
        forall|k: int| 0 <= k <= cs@.len() ==> #[trigger] offs@[k] == byte_at(cs@, k),
    ensures
        r == byte_len(trim_chars(cs@.subrange(from as int, to as int))),
{
    let (a, b) = trim_range(cs, from, to);
    proof {
        lemma_byte_range(cs@, a as int, b as int);
    }
    offs[b] - offs[a]
}

fn step_of(size: usize, overlap: usize) -> (r: usize)
    requires
        size > 0,
    ensures
        r == window_step(size as nat, overlap as nat),
        1 <= r <= size,
{
    let eff = if overlap < size - 1 { overlap } else { size - 1 };
    if size - eff >= 1 { size - eff } else { 1 }
}

fn chunk_fixed_chars(cs: &Vec<char>, offs: &Vec<usize>, size: usize, overlap: usize, min: usize) -> (r: Vec<(usize, usize, String)>)
    requires
        offs@.len() == cs@.len() + 1,
        forall|k: int| 0 <= k <= cs@.len() ==> #[trigger] offs@[k] == byte_at(cs@, k),
    ensures
        chunk_views(r@) == char_windows(cs@, size as nat, overlap as nat, min as nat),
{
    let mut chunks: Vec<(usize, usize, String)> = Vec::new();
    if size == 0 || cs.len() == 0 {
        return chunks;
    }
    let total = cs.len();
    let step = step_of(size, overlap);
    let mut c_start: usize = 0;
    assert(chunk_views(chunks@) =~= Seq::<ChunkView>::empty());
    loop
        invariant_except_break
            char_windows(cs@, size as nat, overlap as nat, min as nat)
                == char_windows_from(cs@, size as nat, overlap as nat, min as nat, c_start as nat, chunk_views(chunks@)),
        invariant
            offs@.len() == cs@.len() + 1,
            forall|k: int| 0 <= k <= cs@.len() ==> #[trigger] offs@[k] == byte_at(cs@, k),
            total == cs@.len(),
            size > 0,
            step == window_step(size as nat, overlap as nat),
            1 <= step <= size,
            c_start < total,
        ensures
            chunk_views(chunks@) == char_windows(cs@, size as nat, overlap as nat, min as nat),
        decreases total - c_start,
    {
        let c_end = if size < total - c_start { c_start + size } else { total };
        let t = trimmed_bytes(cs, offs, c_start, c_end);
        let ghost before = chunks@;
        if t >= min || (chunks.len() == 0 && c_end >= total) {
            let piece = string_of(cs, c_start, c_end);
            chunks.push((c_start, c_end, piece));
            assert(chunk_views(chunks@) =~= chunk_views(before).push(
                (c_start as int, c_end as int, cs@.subrange(c_start as int, c_end as int))));
        }
        if c_end >= total {
            break;
        }
        c_start = c_start + step;
    }
    chunks
}

/// Word spans (start and end character positions) closed so far, and the
/// start of the word being read.
pub open spec fn span_run(cs: Seq<char>) -> (Seq<(int, int)>, Option<int>)
    decreases cs.len(),
{
    if cs.len() == 0 {
        (Seq::empty(), None)
    } else {
        let (sp, cur) = span_run(cs.drop_last());
        let i = cs.len() - 1;
        if is_white_space(cs.last()) {
            match cur {
                Some(s) => (sp.push((s, i)), None),
                None => (sp, None),
            }
        } else if cur is None {
            (sp, Some(i))
        } else {
            (sp, cur)
        }
    }
}

/// The spans of the maximal runs of characters that are not white space.
pub open spec fn token_spans(cs: Seq<char>) -> Seq<(int, int)> {
    let (sp, cur) = span_run(cs);
    match cur {
        Some(s) => sp.push((s, cs.len() as int)),
        None => sp,
    }
}

/// Spans that are non-empty, lie within `0..n` and follow one another.
pub open spec fn spans_ordered(sp: Seq<(int, int)>, n: int) -> bool {
    &&& forall|j: int| 0 <= j < sp.len() ==> 0 <= (#[trigger] sp[j]).0 < sp[j].1 <= n
    &&& forall|j: int, k: int| 0 <= j < k < sp.len() ==> (#[trigger] sp[j]).1 <= (#[trigger] sp[k]).0
}

proof fn lemma_span_run(cs: Seq<char>)
    ensures
        spans_ordered(span_run(cs).0, cs.len() as int),
        span_run(cs).1 matches Some(s) ==> 0 <= s < cs.len()
            && forall|j: int| 0 <= j < span_run(cs).0.len() ==> (#[trigger] span_run(cs).0[j]).1 <= s,
        span_run(cs).1 is None ==> forall|j: int| 0 <= j < span_run(cs).0.len() ==> (#[trigger] span_run(cs).0[j]).1 <= cs.len(),
    decreases cs.len(),
{
    if cs.len() > 0 {
        lemma_span_run(cs.drop_last());
    }
}

proof fn lemma_token_spans(cs: Seq<char>)
    ensures
        spans_ordered(token_spans(cs), cs.len() as int),
{
    lemma_span_run(cs);
    let (sp, cur) = span_run(cs);
    if let Some(s) = cur {
        let t = sp.push((s, cs.len() as int));
        assert forall|j: int, k: int| 0 <= j < k < t.len() implies (#[trigger] t[j]).1 <= (#[trigger] t[k]).0 by {
            if k < sp.len() {
                assert(t[j] == sp[j] && t[k] == sp[k]);
            } else {
                assert(t[j] == sp[j]);
            }
        }
        assert forall|j: int| 0 <= j < t.len() implies 0 <= (#[trigger] t[j]).0 < t[j].1 <= cs.len() by {
            if j < sp.len() {
                assert(t[j] == sp[j]);
            }
        }
    }
}

/// Windows of `size` words from word `start` on, appended to `acc`; each
/// chunk runs from the start of its first word to the end of its last.
pub open spec fn token_windows_from(cs: Seq<char>, sp: Seq<(int, int)>, size: nat, overlap: nat, min: nat, start: nat, acc: Seq<ChunkView>) -> Seq<ChunkView>
    decreases sp.len() - start,
{
    if size == 0 || start >= sp.len() {
        acc
    } else {
        let end = if start + size < sp.len() { start + size } else { sp.len() as nat };
        let a = sp[start as int].0;
        let b = sp[end - 1].1;
        let slice = cs.subrange(a, b);
        let acc2 = if kept(slice, min, acc.len() == 0, end >= sp.len()) {
            acc.push((a, b, slice))
        } else {
            acc
        };
        if end >= sp.len() {
            acc2
        } else {
            token_windows_from(cs, sp, size, overlap, min, start + window_step(size, overlap), acc2)
        }
    }
}

/// Chunks of `size` words, consecutive ones sharing `overlap` words.
pub open spec fn token_windows(cs: Seq<char>, size: nat, overlap: nat, min: nat) -> Seq<ChunkView> {
    token_windows_from(cs, token_spans(cs), size, overlap, min, 0, Seq::empty())
}

fn spans_of(cs: &Vec<char>) -> (r: Vec<(usize, usize)>)
    ensures
        r@.map_values(|p: (usize, usize)| (p.0 as int, p.1 as int)) == token_spans(cs@),
{
    let mut spans: Vec<(usize, usize)> = Vec::new();
    let mut cur: Option<usize> = None;
    let mut i: usize = 0;
    assert(cs@.take(0) =~= Seq::<char>::empty());
    while i < cs.len()
        invariant
            i <= cs@.len(),
            span_run(cs@.take(i as int)) == (spans@.map_values(|p: (usize, usize)| (p.0 as int, p.1 as int)),
                match cur { Some(s) => Some(s as int), None => None::<int> }),
        decreases cs@.len() - i,
    {
        proof {
            assert(cs@.take(i + 1).drop_last() =~= cs@.take(i as int));
        }
        let ghost before = spans@;
        if char_is_whitespace(cs[i]) {
            match cur {
                Some(s) => {
                    spans.push((s, i));
                    assert(spans@.map_values(|p: (usize, usize)| (p.0 as int, p.1 as int)) =~=
                        before.map_values(|p: (usize, usize)| (p.0 as int, p.1 as int)).push((s as int, i as int)));
                    cur = None;
                },
                None => {},
            }
        } else if cur.is_none() {
            cur = Some(i);
        }
        i = i + 1;
    }
    assert(cs@.take(cs@.len() as int) =~= cs@);
    match cur {
        Some(s) => {
            let ghost before = spans@;
            spans.push((s, cs.len()));
            assert(spans@.map_values(|p: (usize, usize)| (p.0 as int, p.1 as int)) =~=
                before.map_values(|p: (usize, usize)| (p.0 as int, p.1 as int)).push((s as int, cs@.len() as int)));
        },
        None => {},
    }
    spans
}

fn chunk_fixed_tokens(cs: &Vec<char>, offs: &Vec<usize>, size: usize, overlap: usize, min: usize) -> (r: Vec<(usize, usize, String)>)
    requires
        offs@.len() == cs@.len() + 1,
        forall|k: int| 0 <= k <= cs@.len() ==> #[trigger] offs@[k] == byte_at(cs@, k),
    ensures
        chunk_views(r@) == token_windows(cs@, size as nat, overlap as nat, min as nat),
{
    let mut chunks: Vec<(usize, usize, String)> = Vec::new();
    let spans = spans_of(cs);
    let ghost sp = token_spans(cs@);
    proof {
        lemma_token_spans(cs@);
    }
    assert(chunk_views(chunks@) =~= Seq::<ChunkView>::empty());
    if size == 0 || spans.len() == 0 {
        return chunks;
    }
    let total = spans.len();
    let step = step_of(size, overlap);
    let mut t_start: usize = 0;
    assert forall|j: int| 0 <= j < total implies (#[trigger] spans@[j]).0 == sp[j].0 && spans@[j].1 == sp[j].1 by {
        assert(sp[j] == (spans@[j].0 as int, spans@[j].1 as int));
    }
    loop
        invariant_except_break
            token_windows(cs@, size as nat, overlap as nat, min as nat)
                == token_windows_from(cs@, sp, size as nat, overlap as nat, min as nat, t_start as nat, chunk_views(chunks@)),
        invariant
            offs@.len() == cs@.len() + 1,
            forall|k: int| 0 <= k <= cs@.len() ==> #[trigger] offs@[k] == byte_at(cs@, k),
            sp == token_spans(cs@),
            spans_ordered(sp, cs@.len() as int),
            total == spans@.len(),
            total == sp.len(),
            forall|j: int| 0 <= j < total ==> (#[trigger] spans@[j]).0 == sp[j].0 && spans@[j].1 == sp[j].1,
            size > 0,
            step == window_step(size as nat, overlap as nat),
            1 <= step <= size,
            t_start < total,
        ensures
            chunk_views(chunks@) == token_windows(cs@, size as nat, overlap as nat, min as nat),
        decreases total - t_start,
    {
        let t_end = if size < total - t_start { t_start + size } else { total };
        let a = spans[t_start].0;
        let b = spans[t_end - 1].1;
        proof {
            assert(sp[t_start as int].0 < sp[t_start as int].1);
            if t_start < t_end - 1 {
                assert(sp[t_start as int].1 <= sp[t_end - 1].0);
            }
            assert(sp[t_end - 1].0 < sp[t_end - 1].1);
        }
        let t = trimmed_bytes(cs, offs, a, b);
        let ghost before = chunks@;
        if t >= min || (chunks.len() == 0 && t_end >= total) {
            let piece = string_of(cs, a, b);
            chunks.push((a, b, piece));
            assert(chunk_views(chunks@) =~= chunk_views(before).push(
                (a as int, b as int, cs@.subrange(a as int, b as int))));
        }
        if t_end >= total {
            break;
        }
        t_start = t_start + step;
    }
    chunks
}

/// After the first `n` characters: the paragraphs closed so far, the start
/// of the paragraph being read, and the number of line feeds just read. A
/// paragraph starts at a character that is not white space and is closed by
/// the second of consecutive line feeds; it is kept, without the white space
/// around it, where that reaches `min` bytes.
pub open spec fn para_scan(cs: Seq<char>, n: nat, min: nat) -> (Seq<ChunkView>, Option<int>, nat)
    decreases n,
{
    if n == 0 {
        (Seq::empty(), None, 0)
    } else {
        let (acc, ps, nl) = para_scan(cs, (n - 1) as nat, min);
        let i = n - 1;
        let c = cs[i];
        if c == '\n' {
            if nl + 1 >= 2 && ps is Some {
                let s = ps->0;
                let t = trim_chars(cs.subrange(s, i));
                if byte_len(t) >= min {
                    (acc.push((s, i, t)), None, nl + 1)
                } else {
                    (acc, None, nl + 1)
                }
            } else {
                (acc, ps, nl + 1)
            }
        } else {
            let ps2 = if !is_white_space(c) && ps is None { Some(i) } else { ps };
            (acc, ps2, 0)
        }
    }
}

/// Paragraphs separated by blank lines; the last one is kept also where it
/// is short, when no other was kept.
pub open spec fn paragraphs(cs: Seq<char>, min: nat) -> Seq<ChunkView> {
    let (acc, ps, nl) = para_scan(cs, cs.len(), min);
    match ps {
        Some(s) => {
            let t = trim_chars(cs.subrange(s, cs.len() as int));
            if byte_len(t) >= min || acc.len() == 0 {
                acc.push((s, cs.len() as int, t))
            } else {
                acc
            }
        },
        None => acc,
    }
}

fn trimmed_string(cs: &Vec<char>, offs: &Vec<usize>, from: usize, to: usize) -> (r: (String, usize))
    requires
        from <= to <= cs@.len(),
        offs@.len() == cs@.len() + 1,
        forall|k: int| 0 <= k <= cs@.len() ==> #[trigger] offs@[k] == byte_at(cs@, k),
    ensures
        r.0@ == trim_chars(cs@.subrange(from as int, to as int)),
        r.1 == byte_len(r.0@),
{
    let (a, b) = trim_range(cs, from, to);
    proof {
        lemma_byte_range(cs@, a as int, b as int);
    }
    (string_of(cs, a, b), offs[b] - offs[a])
}

fn chunk_paragraphs(cs: &Vec<char>, offs: &Vec<usize>, min: usize) -> (r: Vec<(usize, usize, String)>)
    requires
        offs@.len() == cs@.len() + 1,
        forall|k: int| 0 <= k <= cs@.len() ==> #[trigger] offs@[k] == byte_at(cs@, k),
    ensures
        chunk_views(r@) == paragraphs(cs@, min as nat),
{
    let mut chunks: Vec<(usize, usize, String)> = Vec::new();
    let mut para_start: Option<usize> = None;
    let mut newlines: usize = 0;
    let mut i: usize = 0;
    assert(chunk_views(chunks@) =~= Seq::<ChunkView>::empty());
    while i < cs.len()
        invariant
            i <= cs@.len(),
            offs@.len() == cs@.len() + 1,
            forall|k: int| 0 <= k <= cs@.len() ==> #[trigger] offs@[k] == byte_at(cs@, k),
            newlines <= i,
            para_start matches Some(s) ==> s < i,
            para_scan(cs@, i as nat, min as nat) == (chunk_views(chunks@),
                match para_start { Some(s) => Some(s as int), None => None::<int> }, newlines as nat),
        decreases cs@.len() - i,
    {
        let c = cs[i];
        let ghost before = chunks@;
        if c == '\n' {
            newlines = newlines + 1;
            if newlines >= 2 {
                match para_start {
                    Some(s) => {
                        let (t, tl) = trimmed_string(cs, offs, s, i);
                        if tl >= min {
                            chunks.push((s, i, t));
                            assert(chunk_views(chunks@) =~= chunk_views(before).push(
                                (s as int, i as int, trim_chars(cs@.subrange(s as int, i as int)))));
                        }
                        para_start = None;
                    },
                    None => {},
                }
            }
        } else {
            if !char_is_whitespace(c) && para_start.is_none() {
                para_start = Some(i);
            }
            newlines = 0;
        }
        i = i + 1;
    }
    match para_start {
        Some(s) => {
            let n = cs.len();
            let (t, tl) = trimmed_string(cs, offs, s, n);
            if tl >= min || chunks.len() == 0 {
                let ghost before = chunks@;
                chunks.push((s, n, t));
                assert(chunk_views(chunks@) =~= chunk_views(before).push(
                    (s as int, n as int, trim_chars(cs@.subrange(s as int, n as int)))));
            }
        },
        None => {},
    }
    chunks
}

/// Whether a sentence ends at position `i`: at `.`, `!` or `?` followed by
/// white space, a quote or the end of the text, or at a line feed.
pub open spec fn sentence_end(cs: Seq<char>, i: int) -> bool {
    let c = cs[i];
    if c == '.' || c == '!' || c == '?' {
        if i + 1 < cs.len() {
            let d = cs[i + 1];
            is_white_space(d) || d == '"' || d == '\''
        } else {
            true
        }
    } else {
        c == '\n'
    }
}

/// From position `i` on: sentences ending at each sentence end, kept where
/// they reach `min` bytes without the white space around them; a sentence
/// too short to keep runs on into the next. Gives the kept sentences and the
/// start of the text not yet kept.
pub open spec fn sentence_scan(cs: Seq<char>, min: nat, i: nat, start: nat, acc: Seq<ChunkView>) -> (Seq<ChunkView>, nat)
    decreases cs.len() - i,
{
    if i >= cs.len() {
        (acc, start)
    } else if sentence_end(cs, i as int) && byte_len(trim_chars(cs.subrange(start as int, i + 1int))) >= min {
        let t = trim_chars(cs.subrange(start as int, i + 1int));
        sentence_scan(cs, min, i + 1, i + 1, acc.push((start as int, i + 1int, t)))
    } else {
        sentence_scan(cs, min, i + 1, start, acc)
    }
}

/// Sentences; text left after the last kept sentence becomes a sentence of
/// its own, or, where it is too short, is joined to the last one by a space.
pub open spec fn sentences(cs: Seq<char>, min: nat) -> Seq<ChunkView> {
    let (acc, start) = sentence_scan(cs, min, 0, 0, Seq::empty());
    let n = cs.len() as int;
    if start < n {
        let t = trim_chars(cs.subrange(start as int, n));
        if t.len() == 0 {
            acc
        } else if acc.len() > 0 && byte_len(t) < min {
            let last = acc.last();
            acc.drop_last().push((last.0, n, last.2.push(' ') + t))
        } else {
            acc.push((start as int, n, t))
        }
    } else {
        acc
    }
}

fn chunk_sentences(cs: &Vec<char>, offs: &Vec<usize>, min: usize) -> (r: Vec<(usize, usize, String)>)
    requires
        offs@.len() == cs@.len() + 1,
        forall|k: int| 0 <= k <= cs@.len() ==> #[trigger] offs@[k] == byte_at(cs@, k),
    ensures
        chunk_views(r@) == sentences(cs@, min as nat),
{
    let mut chunks: Vec<(usize, usize, String)> = Vec::new();
    let n = cs.len();
    let mut start: usize = 0;
    let mut i: usize = 0;
    assert(chunk_views(chunks@) =~= Seq::<ChunkView>::empty());
    while i < n
        invariant
            n == cs@.len(),
            i <= n,
            start <= i,
            offs@.len() == cs@.len() + 1,
            forall|k: int| 0 <= k <= cs@.len() ==> #[trigger] offs@[k] == byte_at(cs@, k),
            sentence_scan(cs@, min as nat, 0, 0, Seq::empty())
                == sentence_scan(cs@, min as nat, i as nat, start as nat, chunk_views(chunks@)),
        decreases n - i,
    {
        let c = cs[i];
        let is_end = if c == '.' || c == '!' || c == '?' {
            if i + 1 < n {
                let d = cs[i + 1];
                char_is_whitespace(d) || d == '"' || d == '\''
            } else {
                true
            }
        } else {
            c == '\n'
        };
        if is_end {
            let (t, tl) = trimmed_string(cs, offs, start, i + 1);
            if tl >= min {
                let ghost before = chunks@;
                chunks.push((start, i + 1, t));
                assert(chunk_views(chunks@) =~= chunk_views(before).push(
                    (start as int, i + 1, trim_chars(cs@.subrange(start as int, i + 1)))));
                start = i + 1;
            }
        }
        i = i + 1;
    }
    if start < n {
        let (t, tl) = trimmed_string(cs, offs, start, n);
        proof {
            lemma_byte_len_positive(t@);
        }
        if tl > 0 {
            let ghost before = chunks@;
            if chunks.len() > 0 && tl < min {
                let last = chunks.pop().unwrap();
                let mut joined = last.2;
                joined.push(' ');
                joined.append(t.as_str());
                chunks.push((last.0, n, joined));
                assert(chunk_views(before).drop_last() =~= chunk_views(before.drop_last()));
                assert(chunk_views(chunks@) =~= chunk_views(before).drop_last().push(
                    (chunk_views(before).last().0, n as int, chunk_views(before).last().2.push(' ') + t@)));
            } else {
                chunks.push((start, n, t));
                assert(chunk_views(chunks@) =~= chunk_views(before).push(
                    (start as int, n as int, trim_chars(cs@.subrange(start as int, n as int)))));
            }
        }
    }
    chunks
}

/// The chunks of a text under a configuration: none for a blank text.
pub open spec fn chunked(cs: Seq<char>, config: ChunkingConfig) -> Seq<ChunkView> {
    if trim_chars(cs).len() == 0 {
        Seq::empty()
    } else {
        let min = config.min_chunk_size as nat;
        match config.strategy {
            ChunkingStrategy::FixedChars { size, overlap } => char_windows(cs, size as nat, overlap as nat, min),
            ChunkingStrategy::FixedTokens { size, overlap } => token_windows(cs, size as nat, overlap as nat, min),
            ChunkingStrategy::Paragraph => paragraphs(cs, min),
            ChunkingStrategy::Sentence => sentences(cs, min),
        }
    }
}

/// Cuts a text into chunks as the configuration says; each chunk comes with
/// the character positions, in `text`, of the span it was cut from.
pub fn chunk_text(text: &str, config: &ChunkingConfig) -> (r: Vec<(usize, usize, String)>)
    ensures
        chunk_views(r@) == chunked(text@, *config),
{
    let cs = chars_of(text);
    let n = cs.len();
    let (a, b) = trim_range(&cs, 0, n);
    assert(cs@.subrange(0, n as int) =~= cs@);
    if a == b {
        let empty: Vec<(usize, usize, String)> = Vec::new();
        assert(chunk_views(empty@) =~= Seq::<ChunkView>::empty());
        return empty;
    }
    let offs = byte_offsets(text, &cs);
    let min = config.min_chunk_size;
    match config.strategy {
        ChunkingStrategy::FixedChars { size, overlap } => chunk_fixed_chars(&cs, &offs, size, overlap, min),
        ChunkingStrategy::FixedTokens { size, overlap } => chunk_fixed_tokens(&cs, &offs, size, overlap, min),
        ChunkingStrategy::Paragraph => chunk_paragraphs(&cs, &offs, min),
        ChunkingStrategy::Sentence => chunk_sentences(&cs, &offs, min),
    }
}

/// A chunk that runs between two character positions of the text.
pub open spec fn spans_text(cs: Seq<char>, c: ChunkView) -> bool {
    0 <= c.0 <= c.1 <= cs.len()
}

/// A chunk that is exactly the text between two character positions.
pub open spec fn slice_of_text(cs: Seq<char>, c: ChunkView) -> bool {
    0 <= c.0 <= c.1 <= cs.len() && c.2 == cs.subrange(c.0, c.1)
}

pub open spec fn all_slices(cs: Seq<char>, v: Seq<ChunkView>) -> bool {
    forall|i: int| 0 <= i < v.len() ==> #[trigger] slice_of_text(cs, v[i])
}

pub open spec fn all_span(cs: Seq<char>, v: Seq<ChunkView>) -> bool {
    forall|i: int| 0 <= i < v.len() ==> #[trigger] spans_text(cs, v[i])
}

proof fn lemma_slice_push(cs: Seq<char>, v: Seq<ChunkView>, a: int, b: int)
    requires
        all_slices(cs, v),
        0 <= a <= b <= cs.len(),
    ensures
        all_slices(cs, v.push((a, b, cs.subrange(a, b)))),
{
    let w = v.push((a, b, cs.subrange(a, b)));
    assert forall|i: int| 0 <= i < w.len() implies #[trigger] slice_of_text(cs, w[i]) by {
        if i < v.len() {
            assert(w[i] == v[i]);
        } else {
            assert(w[i] == (a, b, cs.subrange(a, b)));
        }
    }
}

proof fn lemma_span_push(cs: Seq<char>, v: Seq<ChunkView>, a: int, b: int, t: Seq<char>)
    requires
        all_span(cs, v),
        0 <= a <= b <= cs.len(),
    ensures
        all_span(cs, v.push((a, b, t))),
{
    let w = v.push((a, b, t));
    assert forall|i: int| 0 <= i < w.len() implies #[trigger] spans_text(cs, w[i]) by {
        if i < v.len() {
            assert(w[i] == v[i]);
        } else {
            assert(w[i].0 == a && w[i].1 == b);
        }
    }
}

proof fn lemma_char_windows_slices(cs: Seq<char>, size: nat, overlap: nat, min: nat, start: nat, acc: Seq<ChunkView>)
    requires
        all_slices(cs, acc),
    ensures
        all_slices(cs, char_windows_from(cs, size, overlap, min, start, acc)),
    decreases cs.len() - start,
{
    if size > 0 && start < cs.len() {
        let end = if start + size < cs.len() { start + size } else { cs.len() as nat };
        let slice = cs.subrange(start as int, end as int);
        lemma_slice_push(cs, acc, start as int, end as int);
        let acc2 = if kept(slice, min, acc.len() == 0, end >= cs.len()) {
            acc.push((start as int, end as int, slice))
        } else {
            acc
        };
        if end < cs.len() {
            lemma_char_windows_slices(cs, size, overlap, min, start + window_step(size, overlap), acc2);
        }
    }
}

proof fn lemma_token_windows_slices(cs: Seq<char>, sp: Seq<(int, int)>, size: nat, overlap: nat, min: nat, start: nat, acc: Seq<ChunkView>)
    requires
        all_slices(cs, acc),
        spans_ordered(sp, cs.len() as int),
    ensures
        all_slices(cs, token_windows_from(cs, sp, size, overlap, min, start, acc)),
    decreases sp.len() - start,
{
    if size > 0 && start < sp.len() {
        let end = if start + size < sp.len() { start + size } else { sp.len() as nat };
        let a = sp[start as int].0;
        let b = sp[end - 1].1;
        assert(sp[start as int].0 < sp[start as int].1);
        if start < end - 1 {
            assert(sp[start as int].1 <= sp[end - 1].0);
        }
        assert(sp[end - 1].0 < sp[end - 1].1);
        lemma_slice_push(cs, acc, a, b);
        let slice = cs.subrange(a, b);
        let acc2 = if kept(slice, min, acc.len() == 0, end >= sp.len()) {
            acc.push((a, b, slice))
        } else {
            acc
        };
        if end < sp.len() {
            lemma_token_windows_slices(cs, sp, size, overlap, min, start + window_step(size, overlap), acc2);
        }
    }
}

proof fn lemma_para_scan_spans(cs: Seq<char>, n: nat, min: nat)
    requires
        n <= cs.len(),
    ensures
        all_span(cs, para_scan(cs, n, min).0),
        para_scan(cs, n, min).1 matches Some(s) ==> 0 <= s < n,
    decreases n,
{
    if n > 0 {
        lemma_para_scan_spans(cs, (n - 1) as nat, min);
        let (acc, ps, nl) = para_scan(cs, (n - 1) as nat, min);
        if let Some(s) = ps {
            lemma_span_push(cs, acc, s, n - 1, trim_chars(cs.subrange(s, n - 1)));
        }
    }
}

proof fn lemma_sentence_scan_spans(cs: Seq<char>, min: nat, i: nat, start: nat, acc: Seq<ChunkView>)
    requires
        all_span(cs, acc),
        start <= i <= cs.len(),
    ensures
        all_span(cs, sentence_scan(cs, min, i, start, acc).0),
        sentence_scan(cs, min, i, start, acc).1 <= cs.len(),
    decreases cs.len() - i,
{
    if i < cs.len() {
        let t = trim_chars(cs.subrange(start as int, i + 1int));
        lemma_span_push(cs, acc, start as int, i + 1int, t);
        if sentence_end(cs, i as int) && byte_len(t) >= min {
            lemma_sentence_scan_spans(cs, min, i + 1, i + 1, acc.push((start as int, i + 1int, t)));
        } else {
            lemma_sentence_scan_spans(cs, min, i + 1, start, acc);
        }
    }
}

proof fn lemma_slices_span(cs: Seq<char>, v: Seq<ChunkView>)
    requires
        all_slices(cs, v),
    ensures
        all_span(cs, v),
{
    assert forall|i: int| 0 <= i < v.len() implies #[trigger] spans_text(cs, v[i]) by {
        assert(slice_of_text(cs, v[i]));
    }
}

/// Windows of characters or words are exact pieces of the text: each chunk's
/// text is what lies between its two offsets.
pub proof fn law_windows_are_slices(cs: Seq<char>, config: ChunkingConfig)
    requires
        config.strategy is FixedChars || config.strategy is FixedTokens,
    ensures
        forall|i: int| 0 <= i < chunked(cs, config).len() ==> #[trigger] slice_of_text(cs, chunked(cs, config)[i]),
{
    let min = config.min_chunk_size as nat;
    match config.strategy {
        ChunkingStrategy::FixedChars { size, overlap } => {
            lemma_char_windows_slices(cs, size as nat, overlap as nat, min, 0, Seq::empty());
        },
        ChunkingStrategy::FixedTokens { size, overlap } => {
            lemma_token_spans(cs);
            lemma_token_windows_slices(cs, token_spans(cs), size as nat, overlap as nat, min, 0, Seq::empty());
        },
        _ => {},
    }
}

/// Every chunk lies within the text: its offsets are two character positions,
/// in order, so that `0 <= start <= end <= ` the text's length in characters.
pub proof fn law_chunks_within_text(cs: Seq<char>, config: ChunkingConfig)
    ensures
        forall|i: int| 0 <= i < chunked(cs, config).len() ==> #[trigger] spans_text(cs, chunked(cs, config)[i]),
        forall|i: int| 0 <= i < chunked(cs, config).len() ==>
            0 <= (#[trigger] chunked(cs, config)[i]).0 <= chunked(cs, config)[i].1 <= cs.len(),
{
    let min = config.min_chunk_size as nat;
    let v = chunked(cs, config);
    if trim_chars(cs).len() != 0 {
        match config.strategy {
            ChunkingStrategy::FixedChars { .. } => {
                law_windows_are_slices(cs, config);
                lemma_slices_span(cs, v);
            },
            ChunkingStrategy::FixedTokens { .. } => {
                law_windows_are_slices(cs, config);
                lemma_slices_span(cs, v);
            },
            ChunkingStrategy::Paragraph => {
                lemma_para_scan_spans(cs, cs.len(), min);
                let (acc, ps, nl) = para_scan(cs, cs.len(), min);
                if let Some(s) = ps {
                    lemma_span_push(cs, acc, s, cs.len() as int, trim_chars(cs.subrange(s, cs.len() as int)));
                }
            },
            ChunkingStrategy::Sentence => {
                lemma_sentence_scan_spans(cs, min, 0, 0, Seq::empty());
                let (acc, start) = sentence_scan(cs, min, 0, 0, Seq::empty());
                let n = cs.len() as int;
                if start < n {
                    let t = trim_chars(cs.subrange(start as int, n));
                    lemma_span_push(cs, acc, start as int, n, t);
                    if acc.len() > 0 {
                        let last = acc.last();
                        assert(spans_text(cs, acc[acc.len() - 1]));
                        let a = last.0;
                        lemma_span_push(cs, acc.drop_last(), a, n, last.2.push(' ') + t);
                        assert forall|i: int| 0 <= i < acc.len() - 1 implies #[trigger] spans_text(cs, acc.drop_last()[i]) by {
                            assert(acc.drop_last()[i] == acc[i]);
                        }
                    }
                }
            },
        }
    }
    assert forall|i: int| 0 <= i < v.len() implies 0 <= (#[trigger] v[i]).0 <= v[i].1 <= cs.len() by {
        assert(spans_text(cs, v[i]));
    }
}

/// `trim_start` drops a run of leading white space, up to the first other character.
pub proof fn lemma_trim_start_shape(x: Seq<char>) -> (p: int)
    ensures
        0 <= p <= x.len(),
        trim_start(x) == x.subrange(p, x.len() as int),
        forall|j: int| 0 <= j < p ==> is_white_space(#[trigger] x[j]),
        p < x.len() ==> !is_white_space(x[p]),
    decreases x.len(),
{
    if x.len() > 0 && is_white_space(x[0]) {
        let d = x.drop_first();
        let p1 = lemma_trim_start_shape(d);
        assert(d.subrange(p1, d.len() as int) =~= x.subrange(p1 + 1, x.len() as int));
        assert forall|j: int| 0 <= j < p1 + 1 implies is_white_space(#[trigger] x[j]) by {
            if j > 0 {
                assert(x[j] == d[j - 1]);
            }
        }
        if p1 + 1 < x.len() {
            assert(x[p1 + 1] == d[p1]);
        }
        p1 + 1
    } else {
        assert(x.subrange(0, x.len() as int) =~= x);
        0
    }
}

/// `trim_end` drops a run of trailing white space, back to the last other character.
pub proof fn lemma_trim_end_shape(y: Seq<char>) -> (q: int)
    ensures
        0 <= q <= y.len(),
        trim_end(y) == y.subrange(0, q),
        forall|j: int| q <= j < y.len() ==> is_white_space(#[trigger] y[j]),
        q > 0 ==> !is_white_space(y[q - 1]),
    decreases y.len(),
{
    if y.len() > 0 && is_white_space(y.last()) {
        let d = y.drop_last();
        let q1 = lemma_trim_end_shape(d);
        assert(d.subrange(0, q1) =~= y.subrange(0, q1));
        assert forall|j: int| q1 <= j < y.len() implies is_white_space(#[trigger] y[j]) by {
            if j < y.len() - 1 {
                assert(y[j] == d[j]);
            }
        }
        if q1 > 0 {
            assert(y[q1 - 1] == d[q1 - 1]);
        }
        q1
    } else {
        assert(y.subrange(0, y.len() as int) =~= y);
        y.len() as int
    }
}

/// `cs[a..b]` without the white space around it is `cs[p..q]`: white space
/// lies before `p` and from `q` on, and, unless nothing is left, `cs[p]` and
/// `cs[q - 1]` are not white space.
pub proof fn lemma_trim_bounds(cs: Seq<char>, a: int, b: int) -> (pq: (int, int))
    requires
        0 <= a <= b <= cs.len(),
    ensures
        a <= pq.0 <= pq.1 <= b,
        trim_chars(cs.subrange(a, b)) == cs.subrange(pq.0, pq.1),
        forall|j: int| a <= j < pq.0 ==> is_white_space(#[trigger] cs[j]),
        forall|j: int| pq.1 <= j < b ==> is_white_space(#[trigger] cs[j]),
        pq.0 < pq.1 ==> !is_white_space(cs[pq.0]) && !is_white_space(cs[pq.1 - 1]),
        pq.0 == pq.1 ==> forall|j: int| a <= j < b ==> is_white_space(#[trigger] cs[j]),
{
    let x = cs.subrange(a, b);
    let p = lemma_trim_start_shape(x);
    let y = x.subrange(p, x.len() as int);
    let q = lemma_trim_end_shape(y);
    assert(y.subrange(0, q) =~= cs.subrange(a + p, a + p + q));
    assert forall|j: int| a <= j < a + p implies is_white_space(#[trigger] cs[j]) by {
        assert(cs[j] == x[j - a]);
    }
    assert forall|j: int| a + p + q <= j < b implies is_white_space(#[trigger] cs[j]) by {
        assert(cs[j] == y[j - a - p]);
    }
    if q > 0 {
        assert(cs[a + p] == y[0]);
        assert(cs[a + p + q - 1] == y[q - 1]);
        if p < x.len() {
            assert(y[0] == x[p]);
        }
    } else {
        if p < x.len() {
            assert(is_white_space(y[0]));
            assert(y[0] == x[p]);
        }
        assert forall|j: int| a <= j < b implies is_white_space(#[trigger] cs[j]) by {
            if j < a + p {
            } else {
                assert(cs[j] == y[j - a - p]);
            }
        }
    }
    (a + p, a + p + q)
}

/// The state of the paragraph scan over a text with no blank line: nothing
/// closed, a paragraph open from its first character that is neither white
/// space nor a line feed, and line feeds counted only right after one.
proof fn lemma_para_scan_one(cs: Seq<char>, k: nat, min: nat)
    requires
        k <= cs.len(),
        forall|i: int, j: int| 0 <= i && j == i + 1 && j < cs.len() ==> !(#[trigger] cs[i] == '\n' && #[trigger] cs[j] == '\n'),
    ensures
        ({
            let (acc, ps, nl) = para_scan(cs, k, min);
            &&& acc.len() == 0
            &&& nl > 0 ==> k > 0 && cs[k - 1] == '\n'
            &&& ps matches Some(s) ==> 0 <= s < k && !is_white_space(cs[s]) && cs[s] != '\n'
                && forall|j: int| 0 <= j < s ==> is_white_space(#[trigger] cs[j]) || cs[j] == '\n'
            &&& ps is None ==> forall|j: int| 0 <= j < k ==> is_white_space(#[trigger] cs[j]) || cs[j] == '\n'
        }),
    decreases k,
{
    if k > 0 {
        lemma_para_scan_one(cs, (k - 1) as nat, min);
        let i = k - 1;
        let (acc, ps, nl) = para_scan(cs, (k - 1) as nat, min);
        if cs[i] == '\n' && nl > 0 {
            assert(cs[i - 1] == '\n');
            assert(!(cs[i - 1] == '\n' && cs[i] == '\n'));
        }
    }
}

/// A text without a blank line is one paragraph: where it has a character that
/// is neither white space nor a line feed, paragraph chunking gives exactly one
/// chunk, from its first such character to the end, holding that text trimmed.
pub proof fn law_single_paragraph(cs: Seq<char>, config: ChunkingConfig)
    requires
        config.strategy is Paragraph,
        forall|i: int, j: int| 0 <= i && j == i + 1 && j < cs.len() ==> !(#[trigger] cs[i] == '\n' && #[trigger] cs[j] == '\n'),
        exists|j: int| 0 <= j < cs.len() && !is_white_space(#[trigger] cs[j]) && cs[j] != '\n',
    ensures
        chunked(cs, config).len() == 1,
        chunked(cs, config)[0].1 == cs.len(),
        0 <= chunked(cs, config)[0].0 < cs.len(),
        !is_white_space(cs[chunked(cs, config)[0].0]) && cs[chunked(cs, config)[0].0] != '\n',
        forall|j: int| 0 <= j < chunked(cs, config)[0].0 ==> is_white_space(#[trigger] cs[j]) || cs[j] == '\n',
        chunked(cs, config)[0].2 == trim_chars(cs.subrange(chunked(cs, config)[0].0, cs.len() as int)),
{
    let n = cs.len();
    let min = config.min_chunk_size as nat;
    let w = choose|j: int| 0 <= j < cs.len() && !is_white_space(#[trigger] cs[j]) && cs[j] != '\n';
    lemma_para_scan_one(cs, n, min);
    let (pq0, pq1) = lemma_trim_bounds(cs, 0, n as int);
    assert(cs.subrange(0, n as int) =~= cs);
    if pq0 == pq1 {
        assert(is_white_space(cs[w]));
    }
    assert(trim_chars(cs).len() != 0);
    let (acc, ps, nl) = para_scan(cs, n, min);
    if ps is None {
        assert(is_white_space(cs[w]) || cs[w] == '\n');
    }
}

/// Trimmed, a later suffix of a text is no longer in bytes than an earlier one.
pub proof fn lemma_trim_suffix_le(cs: Seq<char>, a: int, b: int)
    requires
        0 <= a <= b <= cs.len(),
    ensures
        byte_len(trim_chars(cs.subrange(b, cs.len() as int))) <= byte_len(trim_chars(cs.subrange(a, cs.len() as int))),
{
    let n = cs.len() as int;
    let (pa, qa) = lemma_trim_bounds(cs, a, n);
    let (pb, qb) = lemma_trim_bounds(cs, b, n);
    if pb == qb {
        assert(cs.subrange(pb, qb) =~= Seq::<char>::empty());
    } else {
        assert(!is_white_space(cs[pb]) && !is_white_space(cs[qb - 1]));
        if qb - 1 >= qa {
            assert(is_white_space(cs[qb - 1]));
        }
        if pa == qa {
            assert(is_white_space(cs[pb]));
        }
        if qa > qb {
            assert(is_white_space(cs[qa - 1]));
        }
        if pb < pa {
            assert(is_white_space(cs[pb]));
        }
        lemma_byte_range(cs, pb, qb);
        lemma_byte_range(cs, pa, qa);
        lemma_byte_range(cs, pa, pb);
    }
}

/// A sentence closes at `j`: a line feed, or `.`, `!` or `?` that ends the text
/// or is followed by white space or a quote.
pub open spec fn closes_sentence(cs: Seq<char>, j: int) -> bool {
    ||| cs[j] == '\n'
    ||| (cs[j] == '.' || cs[j] == '!' || cs[j] == '?')
        && (j + 1 == cs.len() || is_white_space(cs[j + 1]) || cs[j + 1] == '"' || cs[j + 1] == '\'')
}

/// No sentence in `cs[s..k)` closes, with the text before it from `s`, a
/// trimmed piece of `min` bytes or more.
pub open spec fn no_cut(cs: Seq<char>, min: nat, s: int, k: int) -> bool {
    forall|j: int| s <= j < k && #[trigger] closes_sentence(cs, j) ==> byte_len(trim_chars(cs.subrange(s, j + 1))) < min
}

proof fn lemma_sentence_scan_no_cut(cs: Seq<char>, min: nat, i: nat, start: nat, acc: Seq<ChunkView>)
    requires
        start <= i <= cs.len(),
        forall|k: int| 0 <= k < acc.len() ==> no_cut(cs, min, (#[trigger] acc[k]).0, acc[k].1 - 1),
        acc.len() > 0 ==> acc.last().1 == start,
        no_cut(cs, min, start as int, i as int),
    ensures
        ({
            let (acc2, st2) = sentence_scan(cs, min, i, start, acc);
            &&& st2 <= cs.len()
            &&& forall|k: int| 0 <= k < acc2.len() ==> no_cut(cs, min, (#[trigger] acc2[k]).0, acc2[k].1 - 1)
            &&& acc2.len() > 0 ==> acc2.last().1 == st2
            &&& no_cut(cs, min, st2 as int, cs.len() as int)
        }),
    decreases cs.len() - i,
{
    if i < cs.len() {
        if sentence_end(cs, i as int) && byte_len(trim_chars(cs.subrange(start as int, i + 1int))) >= min {
            let t = trim_chars(cs.subrange(start as int, i + 1int));
            let acc2 = acc.push((start as int, i + 1int, t));
            assert forall|k: int| 0 <= k < acc2.len() implies no_cut(cs, min, (#[trigger] acc2[k]).0, acc2[k].1 - 1) by {
                if k < acc.len() {
                    assert(acc2[k] == acc[k]);
                }
            }
            lemma_sentence_scan_no_cut(cs, min, i + 1, i + 1, acc2);
        } else {
            assert(no_cut(cs, min, start as int, i + 1int)) by {
                if closes_sentence(cs, i as int) {
                    assert(sentence_end(cs, i as int));
                }
            }
            lemma_sentence_scan_no_cut(cs, min, i + 1, start, acc);
        }
    }
}

/// Sentence chunking cuts where sentences close: wherever, inside a chunk, a
/// line feed, or a `.`, `!` or `?` at the end of the text or before white space
/// or a quote, closes a piece from the chunk's start that reaches
/// `min_chunk_size` bytes once trimmed, a chunk ends right after it; the one
/// exception is the last chunk, which runs to the end of the text when the text
/// after such a point is too short, once trimmed, to stand as a chunk of its own.
pub proof fn law_sentence_cuts_at_line_feed(cs: Seq<char>, config: ChunkingConfig)
    requires
        config.strategy is Sentence,
    ensures
        ({
            let r = chunked(cs, config);
            let min = config.min_chunk_size as nat;
            forall|k: int, i: int|
                #![trigger r[k], closes_sentence(cs, i)]
                0 <= k < r.len() && r[k].0 <= i < r[k].1 - 1 && closes_sentence(cs, i)
                    && byte_len(trim_chars(cs.subrange(r[k].0, i + 1))) >= min
                    ==> k == r.len() - 1 && r[k].1 == cs.len()
                        && byte_len(trim_chars(cs.subrange(i + 1, cs.len() as int))) < min
        }),
{
    let r = chunked(cs, config);
    let min = config.min_chunk_size as nat;
    let n = cs.len() as int;
    if trim_chars(cs).len() != 0 {
        assert(r == sentences(cs, min));
        lemma_sentence_scan_no_cut(cs, min, 0, 0, Seq::empty());
        let (acc, start) = sentence_scan(cs, min, 0, 0, Seq::empty());
        if start < n {
            let t = trim_chars(cs.subrange(start as int, n));
            if t.len() == 0 {
            } else if acc.len() > 0 && byte_len(t) < min {
                let last = acc.last();
                assert(no_cut(cs, min, acc[acc.len() - 1].0, acc[acc.len() - 1].1 - 1));
                assert forall|k: int, i: int|
                    #![trigger r[k], closes_sentence(cs, i)]
                    0 <= k < r.len() && r[k].0 <= i < r[k].1 - 1 && closes_sentence(cs, i)
                        && byte_len(trim_chars(cs.subrange(r[k].0, i + 1))) >= min
                        implies k == r.len() - 1 && r[k].1 == cs.len()
                            && byte_len(trim_chars(cs.subrange(i + 1, cs.len() as int))) < min by {
                    if k < r.len() - 1 {
                        assert(r[k] == acc[k]);
                        assert(no_cut(cs, min, acc[k].0, acc[k].1 - 1));
                    } else {
                        assert(r[k] == (last.0, n, last.2.push(' ') + t));
                        if i < last.1 - 1 {
                        } else {
                            lemma_trim_suffix_le(cs, start as int, i + 1);
                        }
                    }
                }
            } else {
                assert forall|k: int, i: int|
                    #![trigger r[k], closes_sentence(cs, i)]
                    0 <= k < r.len() && r[k].0 <= i < r[k].1 - 1 && closes_sentence(cs, i)
                        && byte_len(trim_chars(cs.subrange(r[k].0, i + 1))) >= min
                        implies k == r.len() - 1 && r[k].1 == cs.len()
                            && byte_len(trim_chars(cs.subrange(i + 1, cs.len() as int))) < min by {
                    if k < r.len() - 1 {
                        assert(r[k] == acc[k]);
                        assert(no_cut(cs, min, acc[k].0, acc[k].1 - 1));
                    } else {
                        assert(r[k] == (start as int, n, t));
                    }
                }
            }
        } else {
            assert forall|k: int, i: int|
                #![trigger r[k], closes_sentence(cs, i)]
                0 <= k < r.len() && r[k].0 <= i < r[k].1 - 1 && closes_sentence(cs, i)
                    && byte_len(trim_chars(cs.subrange(r[k].0, i + 1))) >= min
                    implies k == r.len() - 1 && r[k].1 == cs.len()
                        && byte_len(trim_chars(cs.subrange(i + 1, cs.len() as int))) < min by {
                assert(r[k] == acc[k]);
                assert(no_cut(cs, min, acc[k].0, acc[k].1 - 1));
            }
        }
    }
}

/// No blank line lies inside `cs[s..e)`: no line feed there is followed by
/// another one there.
pub open spec fn no_blank_line(cs: Seq<char>, s: int, e: int) -> bool {
    forall|j: int, k: int| s <= j && k == j + 1 && k < e ==> !(#[trigger] cs[j] == '\n' && #[trigger] cs[k] == '\n')
}

proof fn lemma_para_scan_no_blank(cs: Seq<char>, k: nat, min: nat)
    requires
        k <= cs.len(),
    ensures
        ({
            let (acc, ps, nl) = para_scan(cs, k, min);
            &&& forall|x: int| 0 <= x < acc.len() ==> no_blank_line(cs, (#[trigger] acc[x]).0, acc[x].1)
                && acc[x].2 == trim_chars(cs.subrange(acc[x].0, acc[x].1)) && byte_len(acc[x].2) >= min
            &&& ps matches Some(s) ==> 0 <= s < k && no_blank_line(cs, s, k as int)
            &&& nl > 0 ==> k > 0 && cs[k - 1] == '\n'
            &&& nl == 0 && k > 0 ==> cs[k - 1] != '\n'
        }),
    decreases k,
{
    if k > 0 {
        lemma_para_scan_no_blank(cs, (k - 1) as nat, min);
        let i = k - 1;
        let (acc, ps, nl) = para_scan(cs, (k - 1) as nat, min);
        if cs[i] == '\n' {
            if nl + 1 >= 2 && ps is Some {
                let s = ps->0;
                let t = trim_chars(cs.subrange(s, i));
                if byte_len(t) >= min {
                    let acc2 = acc.push((s, i, t));
                    assert forall|x: int| 0 <= x < acc2.len() implies no_blank_line(cs, (#[trigger] acc2[x]).0, acc2[x].1)
                        && acc2[x].2 == trim_chars(cs.subrange(acc2[x].0, acc2[x].1)) && byte_len(acc2[x].2) >= min by {
                        if x < acc.len() {
                            assert(acc2[x] == acc[x]);
                        }
                    }
                }
            } else if ps is Some {
                let s = ps->0;
                assert(nl == 0);
                assert(no_blank_line(cs, s, k as int)) by {
                    assert forall|j: int, m: int| s <= j && m == j + 1 && m < k implies !(#[trigger] cs[j] == '\n' && #[trigger] cs[m] == '\n') by {
                        if m == i {
                            assert(cs[(k - 1) - 1] != '\n');
                        }
                    }
                }
            }
        } else if ps is Some {
            let s = ps->0;
            assert(no_blank_line(cs, s, k as int)) by {
                assert forall|j: int, m: int| s <= j && m == j + 1 && m < k implies !(#[trigger] cs[j] == '\n' && #[trigger] cs[m] == '\n') by {
                    if m == i {
                        assert(cs[i] != '\n');
                    }
                }
            }
        }
    }
}

/// Paragraph chunking never carries a blank line inside a chunk: within every
/// chunk, from its start to its end, no line feed is followed by another. Each
/// chunk holds the text of its span without the white space around it, and
/// reaches `min_chunk_size` bytes, but for a lone chunk.
pub proof fn law_paragraphs_split_at_blank_lines(cs: Seq<char>, config: ChunkingConfig)
    requires
        config.strategy is Paragraph,
    ensures
        forall|x: int| 0 <= x < chunked(cs, config).len()
            ==> no_blank_line(cs, (#[trigger] chunked(cs, config)[x]).0, chunked(cs, config)[x].1)
                && chunked(cs, config)[x].2 == trim_chars(cs.subrange(chunked(cs, config)[x].0, chunked(cs, config)[x].1))
                && (chunked(cs, config).len() > 1 ==> byte_len(chunked(cs, config)[x].2) >= config.min_chunk_size),
{
    let min = config.min_chunk_size as nat;
    let n = cs.len();
    lemma_para_scan_no_blank(cs, n, min);
    let (acc, ps, nl) = para_scan(cs, n, min);
    let r = chunked(cs, config);
    if trim_chars(cs).len() != 0 {
        match ps {
            Some(s) => {
                let t = trim_chars(cs.subrange(s, n as int));
                if byte_len(t) >= min || acc.len() == 0 {
                    assert forall|x: int| 0 <= x < r.len() implies no_blank_line(cs, (#[trigger] r[x]).0, r[x].1)
                        && r[x].2 == trim_chars(cs.subrange(r[x].0, r[x].1))
                        && (r.len() > 1 ==> byte_len(r[x].2) >= config.min_chunk_size) by {
                        if x < acc.len() {
                            assert(r[x] == acc[x]);
                        }
                    }
                }
            },
            None => {},
        }
    }
}

/// Windows laid one step apart from the first: each starts `step` characters
/// after the one before, spans `size` characters or up to the end of the text,
/// and holds exactly the characters it spans; only the last reaches the end.
pub open spec fn stepped_windows(cs: Seq<char>, v: Seq<ChunkView>, size: int, step: int) -> bool {
    &&& forall|k: int| 0 <= k < v.len() ==> (#[trigger] v[k]).1 == (if v[k].0 + size < cs.len() { v[k].0 + size } else { cs.len() as int })
        && v[k].2 == cs.subrange(v[k].0, v[k].1)
    &&& forall|k: int| 0 <= k < v.len() - 1 ==> (#[trigger] v[k]).1 < cs.len() && v[k + 1].0 == v[k].0 + step
    &&& v.len() > 0 ==> v[0].0 == 0
}

proof fn lemma_char_windows_stepped(cs: Seq<char>, size: nat, overlap: nat, start: nat, acc: Seq<ChunkView>)
    requires
        size > 0,
        stepped_windows(cs, acc, size as int, window_step(size, overlap) as int),
        acc.len() > 0 ==> acc.last().1 < cs.len() && acc.last().0 + window_step(size, overlap) == start,
        acc.len() == 0 ==> start == 0,
    ensures
        stepped_windows(cs, char_windows_from(cs, size, overlap, 0, start, acc), size as int, window_step(size, overlap) as int),
        start < cs.len() ==> char_windows_from(cs, size, overlap, 0, start, acc).len() > 0
            && char_windows_from(cs, size, overlap, 0, start, acc).last().1 == cs.len(),
    decreases cs.len() - start,
{
    if start < cs.len() {
        let end = if start + size < cs.len() { start + size } else { cs.len() as nat };
        let slice = cs.subrange(start as int, end as int);
        let step = window_step(size, overlap) as int;
        let acc2 = acc.push((start as int, end as int, slice));
        assert(kept(slice, 0, acc.len() == 0, end >= cs.len()));
        assert(stepped_windows(cs, acc2, size as int, step)) by {
            assert forall|k: int| 0 <= k < acc2.len() implies (#[trigger] acc2[k]).1 == (if acc2[k].0 + size < cs.len() { acc2[k].0 + size } else { cs.len() as int })
                && acc2[k].2 == cs.subrange(acc2[k].0, acc2[k].1) by {
                if k < acc.len() {
                    assert(acc2[k] == acc[k]);
                }
            }
            assert forall|k: int| 0 <= k < acc2.len() - 1 implies (#[trigger] acc2[k]).1 < cs.len() && acc2[k + 1].0 == acc2[k].0 + step by {
                assert(acc2[k] == acc[k]);
                if k + 1 < acc.len() {
                    assert(acc2[k + 1] == acc[k + 1]);
                } else {
                    assert(acc[k] == acc.last());
                }
            }
        }
        if end < cs.len() {
            lemma_char_windows_stepped(cs, size, overlap, start + window_step(size, overlap), acc2);
        }
    }
}

/// Fixed character windows tile the text step by step: with no minimum size,
/// the first window starts at the text's start, each next one `size - overlap`
/// characters later (the overlap taken as at most `size - 1`), each spans
/// `size` characters or up to the end, holds exactly those characters, and the
/// last one, only it, reaches the end of the text.
pub proof fn law_char_windows_tile(cs: Seq<char>, config: ChunkingConfig)
    requires
        config.strategy matches ChunkingStrategy::FixedChars { size, overlap } && size > 0,
        config.min_chunk_size == 0,
        trim_chars(cs).len() != 0,
    ensures
        ({
            let size = config.strategy->FixedChars_size as int;
            let overlap = config.strategy->FixedChars_overlap as int;
            let step = size - (if overlap < size - 1 { overlap } else { size - 1 });
            let r = chunked(cs, config);
            &&& r.len() > 0
            &&& r.last().1 == cs.len()
            &&& stepped_windows(cs, r, size, step)
        }),
{
    let size = config.strategy->FixedChars_size;
    let overlap = config.strategy->FixedChars_overlap;
    assert(cs.len() > 0);
    lemma_char_windows_stepped(cs, size as nat, overlap as nat, 0, Seq::empty());
}

} // verus!
