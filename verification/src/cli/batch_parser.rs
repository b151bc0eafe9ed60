//! Batches of writes written as text: one command per line, or operations
//! read from JSON.
use vstd::prelude::*;
use vstd::slice::slice_to_vec;
use vstd::string::{StringExecFns, StringSliceAdditionalSpecFns};
use crate::batch::WriteBatch;
use crate::error::FlashStoreError;
use crate::cli::repl::string_views;
use crate::cli::commands::refused_with;
use crate::text::{chars_of, char_is_whitespace, is_white_space, str_eq, str_to_uppercase, str_to_lowercase, uppercase_of,
    lowercase_of, joined_words, join_words, string_of, trim_chars, trim_range};

verus! {

/// Abstract operations of a batch: key bytes, and value bytes for a put.
pub type OpsView = Seq<(Seq<u8>, Option<Seq<u8>>)>;

/// Maximal runs of characters that are not white space, with the run being read.
pub open spec fn word_run(cs: Seq<char>) -> (Seq<Seq<char>>, Seq<char>)
    decreases cs.len(),
{
    if cs.len() == 0 {
        (Seq::empty(), Seq::empty())
    } else {
        let (words, cur) = word_run(cs.drop_last());
        let c = cs.last();
        if !is_white_space(c) {
            (words, cur.push(c))
        } else if cur.len() > 0 {
            (words.push(cur), Seq::empty())
        } else {
            (words, cur)
        }
    }
}

/// The words of a line: its maximal runs of characters that are not white space.
pub open spec fn line_words(cs: Seq<char>) -> Seq<Seq<char>> {
    let (words, cur) = word_run(cs);
    if cur.len() > 0 { words.push(cur) } else { words }
}

/// A blank line, or one whose first word starts a comment (`#` or `//`).
pub open spec fn skipped_line(ws: Seq<Seq<char>>) -> bool {
    ws.len() == 0 || ws[0][0] == '#' || (ws[0].len() >= 2 && ws[0][0] == '/' && ws[0][1] == '/')
}

pub open spec fn utf8(cs: Seq<char>) -> Seq<u8> {
    vstd::utf8::encode_utf8(cs)
}

/// The batch so far after one more line: comments and blank lines are
/// skipped; `PUT`/`SET` takes a key and the remaining words joined by spaces
/// as the value; `DEL`/`DELETE` takes a key; anything else is refused, with
/// the message naming the command.
pub open spec fn line_step(acc: Result<OpsView, Seq<char>>, line: Seq<char>) -> Result<OpsView, Seq<char>> {
    match acc {
        Err(m) => Err(m),
        Ok(ops) => {
            let ws = line_words(line);
            if skipped_line(ws) {
                Ok(ops)
            } else {
                let u = uppercase_of(ws[0]);
                if u == "PUT"@ || u == "SET"@ {
                    if ws.len() < 3 {
                        Err("Invalid PUT line, expected 'PUT <key> <value>', got: '"@ + trim_chars(line) + "'"@)
                    } else {
                        Ok(ops.push((utf8(ws[1]), Some(utf8(joined_words(ws.skip(2)))))))
                    }
                } else if u == "DEL"@ || u == "DELETE"@ {
                    if ws.len() < 2 {
                        Err("Invalid DEL line, expected 'DEL <key>', got: '"@ + trim_chars(line) + "'"@)
                    } else {
                        Ok(ops.push((utf8(ws[1]), None)))
                    }
                } else {
                    Err("Unrecognized batch command: '"@ + u + "'"@)
                }
            }
        },
    }
}

/// The batch read from the lines completed so far, and the line being read;
/// lines end at line feeds.
pub open spec fn batch_scan(cs: Seq<char>) -> (Result<OpsView, Seq<char>>, Seq<char>)
    decreases cs.len(),
{
    if cs.len() == 0 {
        (Ok(Seq::empty()), Seq::empty())
    } else {
        let (acc, line) = batch_scan(cs.drop_last());
        if cs.last() == '\n' { (line_step(acc, line), Seq::empty()) } else { (acc, line.push(cs.last())) }
    }
}

/// The batch a text of command lines describes, or the message refusing it.
pub open spec fn plain_batch(cs: Seq<char>) -> Result<OpsView, Seq<char>> {
    let (acc, line) = batch_scan(cs);
    line_step(acc, line)
}

/// The words of one line.
pub(crate) fn words_of_line(cs: &Vec<char>, from: usize, to: usize) -> (r: Vec<String>)
    requires
        from <= to <= cs@.len(),
    ensures
        string_views(r@) == line_words(cs@.subrange(from as int, to as int)),
{
    let mut words: Vec<String> = Vec::new();
    let mut start = from;
    let mut in_word = false;
    let mut i = from;
    let ghost line = cs@.subrange(from as int, to as int);
    while i < to
        invariant
            from <= i <= to <= cs@.len(),
            line == cs@.subrange(from as int, to as int),
            from <= start <= i,
            in_word ==> start < i,
            word_run(line.take(i - from)) == (string_views(words@),
                if in_word { cs@.subrange(start as int, i as int) } else { Seq::<char>::empty() }),
        decreases to - i,
    {
        let c = cs[i];
        proof {
            assert(line.take(i - from + 1).drop_last() =~= line.take(i - from));
            assert(line.take(i - from + 1).last() == c);
        }
        if !char_is_whitespace(c) {
            if !in_word {
                start = i;
                in_word = true;
                assert(cs@.subrange(start as int, i + 1) =~= Seq::<char>::empty().push(c));
            } else {
                assert(cs@.subrange(start as int, i + 1) =~= cs@.subrange(start as int, i as int).push(c));
            }
        } else if in_word {
            let w = string_of(cs, start, i);
            let ghost before = words@;
            words.push(w);
            assert(string_views(words@) =~= string_views(before).push(w@));
            in_word = false;
        }
        i = i + 1;
    }
    assert(line.take(to - from) =~= line);
    if in_word {
        let w = string_of(cs, start, to);
        let ghost before = words@;
        words.push(w);
        assert(string_views(words@) =~= string_views(before).push(w@));
    }
    words
}

fn bytes_of(s: &str) -> (r: Vec<u8>)
    ensures
        r@ == utf8(s@),
{
    slice_to_vec(s.as_bytes())
}

/// The characters of `cs[from..to]` without the white space around them.
fn trimmed_line(cs: &Vec<char>, from: usize, to: usize) -> (r: String)
    requires
        from <= to <= cs@.len(),
    ensures
        r@ == trim_chars(cs@.subrange(from as int, to as int)),
{
    let (a, b) = trim_range(cs, from, to);
    string_of(cs, a, b)
}

/// Reads one command per line into a batch: blank lines and comments are
/// skipped, and the first refused line ends the reading with its message.
pub fn parse_plain_lines(input: &str) -> (r: Result<WriteBatch, FlashStoreError>)
    ensures
        match plain_batch(input@) {
            Ok(ops) => r matches Ok(b) && b.spec_ops() == ops,
            Err(m) => refused_with(r, m),
        },
{
    let cs = chars_of(input);
    let n = cs.len();
    let mut batch = WriteBatch::new();
    let mut line_start: usize = 0;
    let mut i: usize = 0;
    assert(batch.spec_ops() =~= Seq::<(Seq<u8>, Option<Seq<u8>>)>::empty());
    assert(cs@.take(0) =~= Seq::<char>::empty());
    loop
        invariant_except_break
            batch_scan(cs@.take(i as int)) == (Ok::<OpsView, Seq<char>>(batch.spec_ops()),
                cs@.subrange(line_start as int, i as int)),
        invariant
            cs@ == input@,
            n == cs@.len(),
            line_start <= i,
            i <= n,
        ensures
            plain_batch(cs@) == Ok::<OpsView, Seq<char>>(batch.spec_ops()),
        decreases n - i,
    {
        if i < n && cs[i] != '\n' {
            proof {
                assert(cs@.take(i + 1).drop_last() =~= cs@.take(i as int));
                assert(cs@.subrange(line_start as int, i + 1) =~= cs@.subrange(line_start as int, i as int).push(cs@[i as int]));
            }
            i = i + 1;
            continue;
        }
        let ghost line = cs@.subrange(line_start as int, i as int);
        let ghost acc = Ok::<OpsView, Seq<char>>(batch.spec_ops());
        let words = words_of_line(&cs, line_start, i);
        let ghost ws = line_words(line);
        let wn = words.len();
        proof {
            lemma_line_words_nonempty(line);
            assert forall|j: int| 0 <= j < wn implies #[trigger] ws[j] == words@[j]@ by {}
        }
        let skip = if wn == 0 {
            true
        } else {
            let fc = chars_of(words[0].as_str());
            fc.len() > 0 && (fc[0] == '#' || (fc.len() >= 2 && fc[0] == '/' && fc[1] == '/'))
        };
        if !skip {
            let upper = str_to_uppercase(words[0].as_str());
            let u = upper.as_str();
            let mut refusal: Option<String> = None;
            if str_eq(u, "PUT") || str_eq(u, "SET") {
                if wn < 3 {
                    let mut msg = String::from_str("Invalid PUT line, expected 'PUT <key> <value>', got: '");
                    let t = trimmed_line(&cs, line_start, i);
                    msg.append(t.as_str());
                    msg.append("'");
                    refusal = Some(msg);
                } else {
                    let value = join_words(&words, 2, wn);
                    assert(words@.subrange(2, wn as int).map_values(|w: String| w@) =~= ws.skip(2));
                    batch.put(bytes_of(words[1].as_str()), bytes_of(value.as_str()));
                }
            } else if str_eq(u, "DEL") || str_eq(u, "DELETE") {
                if wn < 2 {
                    let mut msg = String::from_str("Invalid DEL line, expected 'DEL <key>', got: '");
                    let t = trimmed_line(&cs, line_start, i);
                    msg.append(t.as_str());
                    msg.append("'");
                    refusal = Some(msg);
                } else {
                    batch.delete(bytes_of(words[1].as_str()));
                }
            } else {
                let mut msg = String::from_str("Unrecognized batch command: '");
                msg.append(u);
                msg.append("'");
                refusal = Some(msg);
            }
            match refusal {
                Some(msg) => {
                    proof {
                        assert(line_step(acc, line) == Err::<OpsView, Seq<char>>(msg@));
                        if i < n {
                            assert(cs@.take(i + 1).drop_last() =~= cs@.take(i as int));
                            lemma_refusal_stays(cs@, i + 1, msg@);
                        } else {
                            assert(cs@.take(i as int) =~= cs@);
                        }
                    }
                    return Err(FlashStoreError::InvalidArgument(msg));
                },
                None => {},
            }
        }
        proof {
            assert(line_step(acc, line) == Ok::<OpsView, Seq<char>>(batch.spec_ops()));
            if i < n {
                assert(cs@.take(i + 1).drop_last() =~= cs@.take(i as int));
                assert(cs@.subrange(i + 1, i + 1) =~= Seq::<char>::empty());
            } else {
                assert(cs@.take(i as int) =~= cs@);
            }
        }
        if i == n {
            break;
        }
        line_start = i + 1;
        i = i + 1;
    }
    Ok(batch)
}

/// Once a line is refused, the rest of the text keeps that refusal.
proof fn lemma_refusal_stays(cs: Seq<char>, i: int, m: Seq<char>)
    requires
        0 <= i <= cs.len(),
        batch_scan(cs.take(i)).0 == Err::<OpsView, Seq<char>>(m),
    ensures
        plain_batch(cs) == Err::<OpsView, Seq<char>>(m),
    decreases cs.len() - i,
{
    if i < cs.len() {
        assert(cs.take(i + 1).drop_last() =~= cs.take(i));
        lemma_refusal_stays(cs, i + 1, m);
    } else {
        assert(cs.take(i) =~= cs);
    }
}

proof fn lemma_line_words_nonempty(cs: Seq<char>)
    ensures
        forall|j: int| 0 <= j < line_words(cs).len() ==> (#[trigger] line_words(cs)[j]).len() > 0,
{
    lemma_word_run_nonempty(cs);
}

proof fn lemma_word_run_nonempty(cs: Seq<char>)
    ensures
        forall|j: int| 0 <= j < word_run(cs).0.len() ==> (#[trigger] word_run(cs).0[j]).len() > 0,
    decreases cs.len(),
{
    if cs.len() > 0 {
        lemma_word_run_nonempty(cs.drop_last());
        let (w0, c0) = word_run(cs.drop_last());
        let c = cs.last();
        if !is_white_space(c) {
            assert(word_run(cs).0 == w0);
        } else if c0.len() > 0 {
            assert(word_run(cs).0 == w0.push(c0));
            assert forall|j: int| 0 <= j < w0.push(c0).len() implies (#[trigger] w0.push(c0)[j]).len() > 0 by {
                if j < w0.len() {
                    assert(w0.push(c0)[j] == w0[j]);
                }
            }
        } else {
            assert(word_run(cs).0 == w0);
        }
    }
}


/// A key and value of a nested put operation.
#[derive(Debug, Clone)]
pub struct KvPair {
    pub key: String,
    pub value: String,
}

/// A key of a nested delete operation.
#[derive(Debug, Clone)]
pub struct KeyOnly {
    pub key: String,
}

/// One operation of a batch written in JSON: either flat, naming the
/// operation, or nested under `put`, `delete` or `del`.
#[derive(Debug, Clone)]
pub enum RawBatchOp {
    Flat { op: String, key: String, value: Option<String> },
    Nested { put: Option<KvPair>, delete: Option<KeyOnly>, del: Option<KeyOnly> },
}

/// The batch so far after one more JSON operation: a flat operation is named
/// without regard to case (`put`, `set`, `insert` write the value, or the
/// empty value when none is given; `delete`, `del`, `remove` delete); a
/// nested one writes its `put` pair, else deletes the key of `delete`, else
/// that of `del`, else does nothing.
pub open spec fn raw_op_step(acc: Result<OpsView, Seq<char>>, op: RawBatchOp) -> Result<OpsView, Seq<char>> {
    match acc {
        Err(m) => Err(m),
        Ok(ops) => match op {
            RawBatchOp::Flat { op, key, value } => {
                let l = lowercase_of(op@);
                let v = match value { Some(v) => v@, None => Seq::<char>::empty() };
                if l == "put"@ || l == "set"@ || l == "insert"@ {
                    Ok(ops.push((utf8(key@), Some(utf8(v)))))
                } else if l == "delete"@ || l == "del"@ || l == "remove"@ {
                    Ok(ops.push((utf8(key@), None)))
                } else {
                    Err("Unknown batch operation: '"@ + l + "'"@)
                }
            },
            RawBatchOp::Nested { put, delete, del } => {
                if put is Some {
                    Ok(ops.push((utf8(put->0.key@), Some(utf8(put->0.value@)))))
                } else if delete is Some {
                    Ok(ops.push((utf8(delete->0.key@), None)))
                } else if del is Some {
                    Ok(ops.push((utf8(del->0.key@), None)))
                } else {
                    Ok(ops)
                }
            },
        },
    }
}

/// The batch a list of JSON operations describes, or the message refusing it.
pub open spec fn raw_batch(raw: Seq<RawBatchOp>) -> Result<OpsView, Seq<char>>
    decreases raw.len(),
{
    if raw.len() == 0 {
        Ok(Seq::empty())
    } else {
        raw_op_step(raw_batch(raw.drop_last()), raw.last())
    }
}

/// Turns operations read from JSON into a batch; the first operation with an
/// unknown name refuses the whole list.
pub fn batch_from_raw_ops(raw: &Vec<RawBatchOp>) -> (r: Result<WriteBatch, FlashStoreError>)
    ensures
        match raw_batch(raw@) {
            Ok(ops) => r matches Ok(b) && b.spec_ops() == ops,
            Err(m) => refused_with(r, m),
        },
{
    let mut batch = WriteBatch::new();
    assert(batch.spec_ops() =~= Seq::<(Seq<u8>, Option<Seq<u8>>)>::empty());
    assert(raw@.take(0) =~= Seq::<RawBatchOp>::empty());
    let mut i: usize = 0;
    while i < raw.len()
        invariant
            i <= raw@.len(),
            raw_batch(raw@.take(i as int)) == Ok::<OpsView, Seq<char>>(batch.spec_ops()),
        decreases raw@.len() - i,
    {
        proof {
            assert(raw@.take(i + 1).drop_last() =~= raw@.take(i as int));
        }
        match &raw[i] {
            RawBatchOp::Flat { op, key, value } => {
                let l = str_to_lowercase(op.as_str());
                let lc = l.as_str();
                if str_eq(lc, "put") || str_eq(lc, "set") || str_eq(lc, "insert") {
                    let v = match value {
                        Some(v) => bytes_of(v.as_str()),
                        None => Vec::new(),
                    };
                    proof {
                        if value.is_none() {
                            assert(utf8(Seq::<char>::empty()) =~= Seq::<u8>::empty());
                        }
                    }
                    batch.put(bytes_of(key.as_str()), v);
                } else if str_eq(lc, "delete") || str_eq(lc, "del") || str_eq(lc, "remove") {
                    batch.delete(bytes_of(key.as_str()));
                } else {
                    let mut msg = String::from_str("Unknown batch operation: '");
                    msg.append(lc);
                    msg.append("'");
                    proof {
                        lemma_raw_refusal_stays(raw@, i + 1, msg@);
                    }
                    return Err(FlashStoreError::InvalidArgument(msg));
                }
            },
            RawBatchOp::Nested { put, delete, del } => {
                match put {
                    Some(p) => {
                        batch.put(bytes_of(p.key.as_str()), bytes_of(p.value.as_str()));
                    },
                    None => match delete {
                        Some(d) => {
                            batch.delete(bytes_of(d.key.as_str()));
                        },
                        None => match del {
                            Some(d) => {
                                batch.delete(bytes_of(d.key.as_str()));
                            },
                            None => {},
                        },
                    },
                }
            },
        }
        i = i + 1;
    }
    assert(raw@.take(raw@.len() as int) =~= raw@);
    Ok(batch)
}

/// What a batch text describes: nothing when it is blank; the operations read
/// from it as JSON when it starts with `[` or `{` and reads as a JSON list of
/// operations (`json`); otherwise one command per line.
pub open spec fn text_batch(content: Seq<char>, json: Option<Seq<RawBatchOp>>) -> Result<OpsView, Seq<char>> {
    let t = trim_chars(content);
    if t.len() == 0 {
        Ok(Seq::empty())
    } else if (t[0] == '[' || t[0] == '{') && json is Some {
        raw_batch(json->0)
    } else {
        plain_batch(t)
    }
}

/// Reads a batch from text. `json` is what reading the text, without the
/// white space around it, as a JSON list of operations gave, or `None` where
/// it did not read as one; it counts only where the text starts with `[` or
/// `{`.
pub fn parse_json_ops(content: &str, json: Option<Vec<RawBatchOp>>) -> (r: Result<WriteBatch, FlashStoreError>)
    ensures
        match text_batch(content@, match json { Some(v) => Some(v@), None => None }) {
            Ok(ops) => r matches Ok(b) && b.spec_ops() == ops,
            Err(m) => refused_with(r, m),
        },
{
    let cs = chars_of(content);
    let n = cs.len();
    let t = trimmed_line(&cs, 0, n);
    assert(cs@.subrange(0, n as int) =~= cs@);
    let tc = chars_of(t.as_str());
    if tc.len() == 0 {
        let b = WriteBatch::new();
        assert(b.spec_ops() =~= Seq::<(Seq<u8>, Option<Seq<u8>>)>::empty());
        return Ok(b);
    }
    if tc[0] == '[' || tc[0] == '{' {
        match json {
            Some(raw) => {
                return batch_from_raw_ops(&raw);
            },
            None => {},
        }
    }
    parse_plain_lines(t.as_str())
}

/// Once an operation is refused, the rest of the list keeps that refusal.
proof fn lemma_raw_refusal_stays(raw: Seq<RawBatchOp>, i: int, m: Seq<char>)
    requires
        0 <= i <= raw.len(),
        raw_batch(raw.take(i)) == Err::<OpsView, Seq<char>>(m),
    ensures
        raw_batch(raw) == Err::<OpsView, Seq<char>>(m),
    decreases raw.len() - i,
{
    if i < raw.len() {
        assert(raw.take(i + 1).drop_last() =~= raw.take(i));
        lemma_raw_refusal_stays(raw, i + 1, m);
    } else {
        assert(raw.take(i) =~= raw);
    }
}

/// What one line of a batch file adds: a line whose first word starts with `#`
/// or `//`, or a blank one, adds nothing; `PUT` or `SET` (in any case) with a
/// key and at least one more word writes that key with the remaining words
/// joined by single spaces; `DEL` or `DELETE` (in any case) with a key deletes it.
pub proof fn law_batch_line_meaning(ops: OpsView, line: Seq<char>)
    ensures
        ({
            let ws = line_words(line);
            &&& (ws.len() == 0 || ws[0][0] == '#' || (ws[0].len() >= 2 && ws[0][0] == '/' && ws[0][1] == '/'))
                ==> line_step(Ok(ops), line) == Ok::<OpsView, Seq<char>>(ops)
            &&& ws.len() >= 3 && !skipped_line(ws) && (uppercase_of(ws[0]) == "PUT"@ || uppercase_of(ws[0]) == "SET"@)
                ==> line_step(Ok(ops), line) == Ok::<OpsView, Seq<char>>(ops.push((utf8(ws[1]), Some(utf8(joined_words(ws.skip(2)))))))
            &&& ws.len() >= 2 && !skipped_line(ws) && (uppercase_of(ws[0]) == "DEL"@ || uppercase_of(ws[0]) == "DELETE"@)
                ==> line_step(Ok(ops), line) == Ok::<OpsView, Seq<char>>(ops.push((utf8(ws[1]), None)))
        }),
{
    reveal_strlit("PUT");
    assert("PUT"@.len() == 3 && "PUT"@[0] == 'P');
    reveal_strlit("SET");
    assert("SET"@.len() == 3 && "SET"@[0] == 'S');
    reveal_strlit("DEL");
    assert("DEL"@.len() == 3 && "DEL"@[0] == 'D');
    reveal_strlit("DELETE");
    assert("DELETE"@.len() == 6 && "DELETE"@[0] == 'D');
}

/// What one operation read from JSON adds: named `put`, `set` or `insert` (in
/// any case) it writes its key with its value, or the empty value when it has
/// none; named `delete`, `del` or `remove` it deletes its key.
pub proof fn law_json_op_meaning(ops: OpsView, op: RawBatchOp)
    ensures
        op matches RawBatchOp::Flat { op: name, key, value } ==> {
            let l = lowercase_of(name@);
            let v = match value { Some(v) => v@, None => Seq::<char>::empty() };
            &&& (l == "put"@ || l == "set"@ || l == "insert"@)
                ==> raw_op_step(Ok(ops), op) == Ok::<OpsView, Seq<char>>(ops.push((utf8(key@), Some(utf8(v)))))
            &&& (l == "delete"@ || l == "del"@ || l == "remove"@)
                ==> raw_op_step(Ok(ops), op) == Ok::<OpsView, Seq<char>>(ops.push((utf8(key@), None)))
        },
{
    reveal_strlit("put");
    assert("put"@.len() == 3 && "put"@[0] == 'p');
    reveal_strlit("set");
    assert("set"@.len() == 3 && "set"@[0] == 's');
    reveal_strlit("insert");
    assert("insert"@.len() == 6 && "insert"@[0] == 'i');
    reveal_strlit("delete");
    assert("delete"@.len() == 6 && "delete"@[0] == 'd');
    reveal_strlit("del");
    assert("del"@.len() == 3 && "del"@[0] == 'd');
    reveal_strlit("remove");
    assert("remove"@.len() == 6 && "remove"@[0] == 'r');
}

} // verus!
